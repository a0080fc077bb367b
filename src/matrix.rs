//! Dense row-major matrices over a complex scalar.
use vstd::prelude::*;
use crate::complex::Complex;
use crate::vector::{Vector, lemma_row_major, lemma_index_in_bounds, lemma_positive_factors};
use vstd::arithmetic::mul::{lemma_mul_inequality, lemma_mul_is_commutative};
use vstd::arithmetic::power2::{pow2, lemma_pow2_adds, lemma_pow2_pos};
use crate::qubits::num_qubits_to_size;

verus! {

/// A `rows x cols` matrix; entry `(r, c)` is `data[r * cols + c]`.
#[derive(Clone, PartialEq, Debug)]
pub struct Matrix<F: Complex> {
    pub rows: usize,
    pub cols: usize,
    pub data: Vec<F>,
}

proof fn lemma_factor_le(a: int, b: int)
    requires
        a >= 0,
        b >= 1,
    ensures
        a <= a * b,
{
    lemma_mul_inequality(1, b, a);
    lemma_mul_is_commutative(a, b);
}

proof fn lemma_square_le(x: int, t: int)
    requires
        0 <= x <= t,
    ensures
        x * x <= t * t,
{
    lemma_mul_inequality(x, t, x);
    lemma_mul_inequality(x, t, t);
    lemma_mul_is_commutative(x, t);
}

/// Entry `(r, c)` of an identity matrix.
pub open spec fn ident_entry<F: Complex>(r: int, c: int) -> F {
    if r == c {
        F::spec_one()
    } else {
        F::spec_zero()
    }
}

/// `sum_{t < n} a[i, t] * b[t, j]`, added up from the left starting at zero.
pub open spec fn product_upto<F: Complex>(a: Matrix<F>, b: Matrix<F>, i: int, j: int, n: nat) -> F
    decreases n,
{
    if n == 0 {
        F::spec_zero()
    } else {
        product_upto(a, b, i, j, (n - 1) as nat).spec_plus(a.entry(i, n - 1).spec_times(b.entry(n - 1, j)))
    }
}

/// `sum_{t < n} a[i, t] * v[t]`, added up from the left starting at zero.
pub open spec fn row_times_upto<F: Complex>(a: Matrix<F>, v: Seq<F>, i: int, n: nat) -> F
    decreases n,
{
    if n == 0 {
        F::spec_zero()
    } else {
        row_times_upto(a, v, i, (n - 1) as nat).spec_plus(a.entry(i, n - 1).spec_times(v[n - 1]))
    }
}

/// Entry `(i, j)` of `M^dagger M` summed over the first `n` rows of `m`:
/// `sum_{t < n} conj(m[t, i]) * m[t, j]`.
pub open spec fn gram_upto<F: Complex>(m: Matrix<F>, i: int, j: int, n: nat) -> F
    decreases n,
{
    if n == 0 {
        F::spec_zero()
    } else {
        gram_upto(m, i, j, (n - 1) as nat).spec_plus(m.entry(n - 1, i).spec_conjugate().spec_times(m.entry(n - 1, j)))
    }
}

/// Entry `(i, j)` of `M M^dagger` summed over the first `n` columns of `m`:
/// `sum_{t < n} m[i, t] * conj(m[j, t])`.
pub open spec fn cogram_upto<F: Complex>(m: Matrix<F>, i: int, j: int, n: nat) -> F
    decreases n,
{
    if n == 0 {
        F::spec_zero()
    } else {
        cogram_upto(m, i, j, (n - 1) as nat).spec_plus(m.entry(i, n - 1).spec_times(m.entry(j, n - 1).spec_conjugate()))
    }
}

/// `m` is the Kronecker product of `a` and `b`: entry
/// `(r1 * b.rows + r2, c1 * b.cols + c2)` is `a[r1, c1] * b[r2, c2]`.
pub open spec fn is_tensor_of<F: Complex>(m: Matrix<F>, a: Matrix<F>, b: Matrix<F>) -> bool {
    &&& m.rows == a.rows * b.rows
    &&& m.cols == a.cols * b.cols
    &&& forall|r1: int, r2: int, c1: int, c2: int|
        0 <= r1 < a.rows && 0 <= r2 < b.rows && 0 <= c1 < a.cols && 0 <= c2 < b.cols
            ==> #[trigger] m.entry(r1 * b.rows + r2, c1 * b.cols + c2) == a.entry(r1, c1).spec_times(b.entry(r2, c2))
}

/// `m` is the conjugate transpose of `a`: entry `(r, c)` is `conj(a[c, r])`.
pub open spec fn is_adjoint_of<F: Complex>(m: Matrix<F>, a: Matrix<F>) -> bool {
    &&& m.rows == a.cols
    &&& m.cols == a.rows
    &&& forall|r: int, c: int| 0 <= r < m.rows && 0 <= c < m.cols ==> #[trigger] m.entry(r, c) == a.entry(c, r).spec_conjugate()
}

/// Both bracketings of a threefold Kronecker product have one shape, and at
/// each position they combine the same three entries: `(a * b) * c` on the
/// left and `a * (b * c)` on the right. They agree up to rounding as far as
/// the scalar's multiplication is associative up to rounding.
pub proof fn lemma_tensor_bracketings<F: Complex>(
    a: Matrix<F>,
    b: Matrix<F>,
    c: Matrix<F>,
    ab: Matrix<F>,
    left: Matrix<F>,
    bc: Matrix<F>,
    right: Matrix<F>,
)
    requires
        is_tensor_of(ab, a, b),
        is_tensor_of(left, ab, c),
        is_tensor_of(bc, b, c),
        is_tensor_of(right, a, bc),
    ensures
        left.rows == right.rows,
        left.cols == right.cols,
        forall|i1: int, i2: int, i3: int, j1: int, j2: int, j3: int|
            0 <= i1 < a.rows && 0 <= i2 < b.rows && 0 <= i3 < c.rows && 0 <= j1 < a.cols && 0 <= j2 < b.cols && 0
                <= j3 < c.cols ==> {
                &&& #[trigger] left.entry((i1 * b.rows + i2) * c.rows + i3, (j1 * b.cols + j2) * c.cols + j3) == a.entry(i1, j1).spec_times(b.entry(i2, j2)).spec_times(c.entry(i3, j3))
                &&& right.entry((i1 * b.rows + i2) * c.rows + i3, (j1 * b.cols + j2) * c.cols + j3) == a.entry(i1, j1).spec_times(b.entry(i2, j2).spec_times(c.entry(i3, j3)))
            },
{
    vstd::arithmetic::mul::lemma_mul_is_associative(a.rows as int, b.rows as int, c.rows as int);
    vstd::arithmetic::mul::lemma_mul_is_associative(a.cols as int, b.cols as int, c.cols as int);
    assert forall|i1: int, i2: int, i3: int, j1: int, j2: int, j3: int|
        0 <= i1 < a.rows && 0 <= i2 < b.rows && 0 <= i3 < c.rows && 0 <= j1 < a.cols && 0 <= j2 < b.cols && 0 <= j3
            < c.cols implies {
            &&& #[trigger] left.entry((i1 * b.rows + i2) * c.rows + i3, (j1 * b.cols + j2) * c.cols + j3) == a.entry(i1, j1).spec_times(b.entry(i2, j2)).spec_times(c.entry(i3, j3))
            &&& right.entry((i1 * b.rows + i2) * c.rows + i3, (j1 * b.cols + j2) * c.cols + j3) == a.entry(i1, j1).spec_times(b.entry(i2, j2).spec_times(c.entry(i3, j3)))
        } by {
        lemma_index_in_bounds(i1, i2, a.rows as int, b.rows as int);
        lemma_index_in_bounds(j1, j2, a.cols as int, b.cols as int);
        lemma_index_in_bounds(i2, i3, b.rows as int, c.rows as int);
        lemma_index_in_bounds(j2, j3, b.cols as int, c.cols as int);
        lemma_regroup(i1, i2, i3, b.rows as int, c.rows as int);
        lemma_regroup(j1, j2, j3, b.cols as int, c.cols as int);
        assert(ab.entry(i1 * b.rows + i2, j1 * b.cols + j2) == a.entry(i1, j1).spec_times(b.entry(i2, j2)));
        assert(bc.entry(i2 * c.rows + i3, j2 * c.cols + j3) == b.entry(i2, j2).spec_times(c.entry(i3, j3)));
        assert(left.entry((i1 * b.rows + i2) * c.rows + i3, (j1 * b.cols + j2) * c.cols + j3) == ab.entry(
            i1 * b.rows + i2,
            j1 * b.cols + j2,
        ).spec_times(c.entry(i3, j3)));
        assert(right.entry(i1 * (b.rows * c.rows) + (i2 * c.rows + i3), j1 * (b.cols * c.cols) + (j2 * c.cols + j3))
            == a.entry(i1, j1).spec_times(bc.entry(i2 * c.rows + i3, j2 * c.cols + j3)));
    }
}

proof fn lemma_regroup(i1: int, i2: int, i3: int, n2: int, n3: int)
    ensures
        (i1 * n2 + i2) * n3 + i3 == i1 * (n2 * n3) + (i2 * n3 + i3),
{
    vstd::arithmetic::mul::lemma_mul_is_distributive_add_other_way(n3, i1 * n2, i2);
    vstd::arithmetic::mul::lemma_mul_is_associative(i1, n2, n3);
}

/// The adjoint of a Kronecker product and the Kronecker product of the
/// adjoints have one shape, and at each position the first holds
/// `conj(a * b)` and the second `conj(a) * conj(b)` of the same two entries.
/// They agree up to rounding as far as conjugation distributes over the
/// scalar's multiplication up to rounding.
pub proof fn lemma_adjoint_of_tensor<F: Complex>(
    a: Matrix<F>,
    b: Matrix<F>,
    ab: Matrix<F>,
    ab_adjoint: Matrix<F>,
    a_adjoint: Matrix<F>,
    b_adjoint: Matrix<F>,
    adjoints: Matrix<F>,
)
    requires
        is_tensor_of(ab, a, b),
        is_adjoint_of(ab_adjoint, ab),
        is_adjoint_of(a_adjoint, a),
        is_adjoint_of(b_adjoint, b),
        is_tensor_of(adjoints, a_adjoint, b_adjoint),
    ensures
        ab_adjoint.rows == adjoints.rows,
        ab_adjoint.cols == adjoints.cols,
        forall|c1: int, c2: int, r1: int, r2: int|
            0 <= r1 < a.rows && 0 <= r2 < b.rows && 0 <= c1 < a.cols && 0 <= c2 < b.cols ==> {
                &&& #[trigger] ab_adjoint.entry(c1 * b.cols + c2, r1 * b.rows + r2) == a.entry(r1, c1).spec_times(b.entry(r2, c2)).spec_conjugate()
                &&& adjoints.entry(c1 * b.cols + c2, r1 * b.rows + r2) == a.entry(r1, c1).spec_conjugate().spec_times(b.entry(r2, c2).spec_conjugate())
            },
{
    assert forall|c1: int, c2: int, r1: int, r2: int|
        0 <= r1 < a.rows && 0 <= r2 < b.rows && 0 <= c1 < a.cols && 0 <= c2 < b.cols implies {
            &&& #[trigger] ab_adjoint.entry(c1 * b.cols + c2, r1 * b.rows + r2) == a.entry(r1, c1).spec_times(b.entry(r2, c2)).spec_conjugate()
            &&& adjoints.entry(c1 * b.cols + c2, r1 * b.rows + r2) == a.entry(r1, c1).spec_conjugate().spec_times(b.entry(r2, c2).spec_conjugate())
        } by {
        lemma_index_in_bounds(r1, r2, a.rows as int, b.rows as int);
        lemma_index_in_bounds(c1, c2, a.cols as int, b.cols as int);
        assert(ab.entry(r1 * b.rows + r2, c1 * b.cols + c2) == a.entry(r1, c1).spec_times(b.entry(r2, c2)));
        assert(a_adjoint.entry(c1, r1) == a.entry(r1, c1).spec_conjugate());
        assert(b_adjoint.entry(c2, r2) == b.entry(r2, c2).spec_conjugate());
    }
}

/// Different positions of a row-major array sit at different indices.
proof fn lemma_index_injective(r1: int, c1: int, r2: int, c2: int, cols: int)
    requires
        r1 >= 0,
        r2 >= 0,
        0 <= c1 < cols,
        0 <= c2 < cols,
        r1 != r2 || c1 != c2,
    ensures
        r1 * cols + c1 != r2 * cols + c2,
{
    if r1 != r2 {
        lemma_rows_apart(r1, r2, c1, c2, cols);
    }
}

/// Index `r * cols + c` splits back into `r` and `c`.
proof fn lemma_index_split(r: int, c: int, cols: int)
    requires
        r >= 0,
        0 <= c < cols,
    ensures
        (r * cols + c) / cols == r,
        (r * cols + c) % cols == c,
{
    vstd::arithmetic::div_mod::lemma_fundamental_div_mod_converse(r * cols + c, cols, r, c);
}

/// Entries in different rows of a row-major array sit at different indices.
proof fn lemma_rows_apart(r1: int, r2: int, c1: int, c2: int, cols: int)
    requires
        r1 != r2,
        0 <= c1 < cols,
        0 <= c2 < cols,
        r1 >= 0,
        r2 >= 0,
    ensures
        r1 * cols + c1 != r2 * cols + c2,
{
    if r1 < r2 {
        lemma_mul_inequality(r1 + 1, r2, cols);
        vstd::arithmetic::mul::lemma_mul_is_distributive_add_other_way(cols, r1, 1);
    } else {
        lemma_mul_inequality(r2 + 1, r1, cols);
        vstd::arithmetic::mul::lemma_mul_is_distributive_add_other_way(cols, r2, 1);
    }
}

impl<F: Complex> Matrix<F> {
    /// The data holds one entry per row and column.
    pub open spec fn wf(&self) -> bool {
        self.data.len() == self.rows * self.cols
    }

    pub open spec fn entry(&self, r: int, c: int) -> F {
        self.data[r * self.cols + c]
    }

    /// The matrix with the given rows; `Err` when two rows differ in length.
    pub fn from_rows(rows: Vec<Vector<F>>) -> (m: Result<Self, ()>)
        requires
            rows.len() > 0 ==> rows.len() * rows[0].data.len() <= usize::MAX,
        ensures
            m is Ok <==> forall|r: int| 0 <= r < rows.len() ==> (#[trigger] rows[r]).data.len() == rows[0].data.len(),
            m matches Ok(m) ==> {
                &&& m.wf()
                &&& m.rows == rows.len()
                &&& m.cols == if rows.len() > 0 { rows[0].data.len() } else { 0 }
                &&& forall|r: int, c: int| 0 <= r < m.rows && 0 <= c < m.cols ==> #[trigger] m.entry(r, c) == rows[r].data[c]
            },
    {
        let n: usize = if rows.len() > 0 { rows[0].data.len() } else { 0 };
        let mut data: Vec<F> = Vec::new();
        let mut r: usize = 0;
        while r < rows.len()
            invariant
                r <= rows.len(),
                n == if rows.len() > 0 { rows[0].data.len() } else { 0 },
                rows.len() > 0 ==> rows.len() * n <= usize::MAX,
                data.len() == r * n,
                forall|q: int| 0 <= q < r ==> (#[trigger] rows[q]).data.len() == n,
                forall|q: int, c: int| 0 <= q < r && 0 <= c < n ==> #[trigger] data@[q * n + c] == rows[q].data[c],
            decreases rows.len() - r,
        {
            if rows[r].data.len() != n {
                return Err(());
            }
            proof {
                lemma_mul_inequality(r as int + 1, rows.len() as int, n as int);
                vstd::arithmetic::mul::lemma_mul_is_distributive_add_other_way(n as int, r as int, 1);
            }
            let mut c: usize = 0;
            while c < n
                invariant
                    r < rows.len(),
                    c <= n,
                    rows[r as int].data.len() == n,
                    (r + 1) * n == r * n + n,
                    (r + 1) * n <= usize::MAX,
                    data.len() == r * n + c,
                    forall|q: int, k: int| 0 <= q < r && 0 <= k < n ==> #[trigger] data@[q * n + k] == rows[q].data[k],
                    forall|k: int| 0 <= k < c ==> #[trigger] data@[r * n + k] == rows[r as int].data[k],
                decreases n - c,
            {
                let ghost before = data@;
                data.push(rows[r].data[c]);
                proof {
                    assert forall|q: int, k: int| 0 <= q < r && 0 <= k < n implies #[trigger] data@[q * n + k] == rows[q].data[k] by {
                        lemma_index_in_bounds(q, k, r as int, n as int);
                        assert(data@[q * n + k] == before[q * n + k]);
                    }
                }
                c = c + 1;
            }
            proof {
                assert forall|q: int, k: int| 0 <= q < r + 1 && 0 <= k < n implies #[trigger] data@[q * n + k] == rows[q].data[k] by {
                    if q == r {
                        assert(data@[r * n + k] == rows[r as int].data[k]);
                    }
                }
            }
            r = r + 1;
        }
        Ok(Matrix { rows: rows.len(), cols: n, data })
    }

    /// A matrix of the given size filled with one value.
    fn filled(rows: usize, cols: usize, x: F) -> (m: Self)
        requires
            rows * cols <= usize::MAX,
        ensures
            m.wf(),
            m.rows == rows,
            m.cols == cols,
            forall|i: int| 0 <= i < m.data.len() ==> m.data[i] == x,
    {
        let size = rows * cols;
        let mut data: Vec<F> = Vec::new();
        let mut i: usize = 0;
        while i < size
            invariant
                i <= size,
                data.len() == i,
                forall|j: int| 0 <= j < i ==> data[j] == x,
            decreases size - i,
        {
            data.push(x);
            i = i + 1;
        }
        Matrix { rows, cols, data }
    }

    /// The `n x n` identity: ones on the diagonal, zeros elsewhere.
    pub fn eye(n: usize) -> (m: Self)
        requires
            n * n <= usize::MAX,
        ensures
            m.wf(),
            m.rows == n,
            m.cols == n,
            forall|r: int, c: int| 0 <= r < n && 0 <= c < n ==> #[trigger] m.entry(r, c) == ident_entry::<F>(r, c),
    {
        let mut m = Self::filled(n, n, F::zero());
        let one = F::one();
        let mut i: usize = 0;
        proof {
            assert forall|r: int, c: int| 0 <= r < n && 0 <= c < n implies #[trigger] m.entry(r, c) == F::spec_zero() by {
                lemma_index_in_bounds(r, c, n as int, n as int);
            }
        }
        while i < n
            invariant
                i <= n,
                m.wf(),
                m.rows == n,
                m.cols == n,
                one == F::spec_one(),
                forall|r: int, c: int| 0 <= r < n && 0 <= c < n ==> #[trigger] m.entry(r, c) == if r == c && r < i {
                    F::spec_one()
                } else {
                    F::spec_zero()
                },
            decreases n - i,
        {
            proof {
                lemma_index_in_bounds(i as int, i as int, n as int, n as int);
            }
            let ghost old_m = m;
            m.data.set(i * n + i, one);
            proof {
                assert forall|r: int, c: int| 0 <= r < n && 0 <= c < n implies #[trigger] m.entry(r, c) == if r == c && r < i + 1 {
                    F::spec_one()
                } else {
                    F::spec_zero()
                } by {
                    lemma_index_in_bounds(r, c, n as int, n as int);
                    if r != i || c != i {
                        lemma_index_injective(r, c, i as int, i as int, n as int);
                        assert(m.entry(r, c) == old_m.entry(r, c));
                    }
                }
            }
            i = i + 1;
        }
        m
    }

    /// The `rows x cols` zero matrix.
    pub fn zeroes(rows: usize, cols: usize) -> (m: Self)
        requires
            rows * cols <= usize::MAX,
        ensures
            m.wf(),
            m.rows == rows,
            m.cols == cols,
            forall|r: int, c: int| 0 <= r < rows && 0 <= c < cols ==> #[trigger] m.entry(r, c) == F::spec_zero(),
    {
        let m = Self::filled(rows, cols, F::zero());
        proof {
            assert forall|r: int, c: int| 0 <= r < rows && 0 <= c < cols implies #[trigger] m.entry(r, c) == F::spec_zero() by {
                lemma_index_in_bounds(r, c, rows as int, cols as int);
            }
        }
        m
    }

    pub fn get(&self, r: usize, c: usize) -> (x: F)
        requires
            self.wf(),
            r < self.rows,
            c < self.cols,
        ensures
            x == self.entry(r as int, c as int),
    {
        proof {
            lemma_index_in_bounds(r as int, c as int, self.rows as int, self.cols as int);
        }
        self.data[r * self.cols + c]
    }

    /// Sets entry `(r, c)` to `x`.
    pub fn set(&mut self, r: usize, c: usize, x: F)
        requires
            old(self).wf(),
            r < old(self).rows,
            c < old(self).cols,
        ensures
            final(self).wf(),
            final(self).rows == old(self).rows,
            final(self).cols == old(self).cols,
            final(self).data@ == old(self).data@.update(r * old(self).cols + c, x),
    {
        proof {
            lemma_index_in_bounds(r as int, c as int, self.rows as int, self.cols as int);
        }
        let i = r * self.cols + c;
        self.data.set(i, x);
    }

    pub fn dim(&self) -> (d: (usize, usize))
        ensures
            d == (self.rows, self.cols),
    {
        (self.rows, self.cols)
    }

    pub fn is_square(&self) -> (b: bool)
        ensures
            b == (self.rows == self.cols),
    {
        self.rows == self.cols
    }

    /// The transpose: entry `(r, c)` of the result is entry `(c, r)` of `self`.
    pub fn transpose(&self) -> (t: Self)
        requires
            self.wf(),
        ensures
            t.wf(),
            t.rows == self.cols,
            t.cols == self.rows,
            forall|r: int, c: int| 0 <= r < t.rows && 0 <= c < t.cols ==> #[trigger] t.entry(r, c) == self.entry(c, r),
    {
        let m = self.rows;
        let n = self.cols;
        let mut data: Vec<F> = Vec::new();
        let mut i: usize = 0;
        proof {
            lemma_mul_is_commutative(m as int, n as int);
        }
        while i < n * m
            invariant
                self.wf(),
                m == self.rows,
                n == self.cols,
                n * m == m * n,
                i <= n * m,
                data.len() == i,
                forall|j: int| 0 <= j < i ==> #[trigger] data@[j] == self.entry(j % m as int, j / m as int),
            decreases n * m - i,
        {
            proof {
                lemma_positive_factors(n as int, m as int);
                lemma_row_major(i as int, n as int, m as int);
            }
            let r = i / m;
            let c = i % m;
            let x = self.get(c, r);
            data.push(x);
            i = i + 1;
        }
        let t = Matrix { rows: n, cols: m, data };
        proof {
            assert forall|r: int, c: int| 0 <= r < t.rows && 0 <= c < t.cols implies #[trigger] t.entry(r, c) == self.entry(c, r) by {
                lemma_index_in_bounds(r, c, n as int, m as int);
                vstd::arithmetic::div_mod::lemma_fundamental_div_mod_converse(r * m + c, m as int, r, c);
            }
        }
        t
    }

    /// Every entry conjugated.
    pub fn conjugate(self) -> (m: Self)
        requires
            self.wf(),
        ensures
            m.wf(),
            m.rows == self.rows,
            m.cols == self.cols,
            forall|i: int| 0 <= i < m.data.len() ==> #[trigger] m.data[i] == self.data[i].spec_conjugate(),
    {
        let ghost orig = self.data@;
        let mut m = self;
        let mut i: usize = 0;
        while i < m.data.len()
            invariant
                i <= m.data.len(),
                m.wf(),
                m.rows == self.rows,
                m.cols == self.cols,
                m.data.len() == orig.len(),
                orig == self.data@,
                forall|j: int| 0 <= j < i ==> #[trigger] m.data[j] == orig[j].spec_conjugate(),
                forall|j: int| i <= j < m.data.len() ==> #[trigger] m.data[j] == orig[j],
            decreases m.data.len() - i,
        {
            let x = m.data[i].conjugate();
            m.data.set(i, x);
            i = i + 1;
        }
        m
    }

    /// The conjugate transpose: entry `(r, c)` is the conjugate of entry `(c, r)`.
    pub fn adjoint(&self) -> (m: Self)
        requires
            self.wf(),
        ensures
            m.wf(),
            m.rows == self.cols,
            m.cols == self.rows,
            is_adjoint_of(m, *self),
    {
        let t = self.transpose();
        let m = t.conjugate();
        proof {
            assert forall|r: int, c: int| 0 <= r < m.rows && 0 <= c < m.cols implies #[trigger] m.entry(r, c) == self.entry(c, r).spec_conjugate() by {
                lemma_index_in_bounds(r, c, m.rows as int, m.cols as int);
                assert(t.entry(r, c) == self.entry(c, r));
            }
        }
        m
    }

    /// Entry-wise equality up to rounding error, of matrices of one size.
    pub fn fuzzy_equals(&self, rhs: &Self) -> (b: bool)
        ensures
            b == (self.rows == rhs.rows && self.cols == rhs.cols && self.data.len() == rhs.data.len()
                && forall|i: int| 0 <= i < self.data.len() ==> (#[trigger] self.data[i]).spec_fuzzy_equals(rhs.data[i])),
    {
        if self.rows != rhs.rows || self.cols != rhs.cols || self.data.len() != rhs.data.len() {
            return false;
        }
        let mut i: usize = 0;
        while i < self.data.len()
            invariant
                i <= self.data.len(),
                self.data.len() == rhs.data.len(),
                self.rows == rhs.rows,
                self.cols == rhs.cols,
                forall|j: int| 0 <= j < i ==> (#[trigger] self.data[j]).spec_fuzzy_equals(rhs.data[j]),
            decreases self.data.len() - i,
        {
            if !self.data[i].fuzzy_equals(rhs.data[i]) {
                return false;
            }
            i = i + 1;
        }
        true
    }

    /// Whether the matrix is square and each entry equals, up to rounding
    /// error, the conjugate of its mirror image across the diagonal.
    pub fn is_hermitian(&self) -> (b: bool)
        requires
            self.wf(),
        ensures
            b == (self.rows == self.cols && forall|r: int, c: int| 0 <= r < self.rows && 0 <= c < self.cols
                ==> (#[trigger] self.entry(r, c)).spec_fuzzy_equals(self.entry(c, r).spec_conjugate())),
    {
        if self.rows != self.cols {
            return false;
        }
        let n = self.rows;
        let mut i: usize = 0;
        while i < n * n
            invariant
                self.wf(),
                self.rows == n,
                self.cols == n,
                i <= n * n,
                forall|j: int| 0 <= j < i ==> (#[trigger] self.entry(j / n as int, j % n as int)).spec_fuzzy_equals(
                    self.entry(j % n as int, j / n as int).spec_conjugate(),
                ),
            decreases n * n - i,
        {
            proof {
                lemma_positive_factors(n as int, n as int);
                lemma_row_major(i as int, n as int, n as int);
            }
            let r = i / n;
            let c = i % n;
            if !self.get(r, c).fuzzy_equals(self.get(c, r).conjugate()) {
                return false;
            }
            i = i + 1;
        }
        proof {
            assert forall|r: int, c: int| 0 <= r < n && 0 <= c < n implies (#[trigger] self.entry(r, c)).spec_fuzzy_equals(
                self.entry(c, r).spec_conjugate(),
            ) by {
                lemma_index_in_bounds(r, c, n as int, n as int);
                lemma_index_split(r, c, n as int);
                let j = r * n + c;
                assert(self.entry(j / n as int, j % n as int).spec_fuzzy_equals(self.entry(j % n as int, j / n as int).spec_conjugate()));
            }
        }
        true
    }

    /// Whether the matrix is square with, up to rounding error, ones on the
    /// diagonal and zeros elsewhere.
    pub fn is_identity(&self) -> (b: bool)
        requires
            self.wf(),
        ensures
            b == (self.rows == self.cols && forall|r: int, c: int| 0 <= r < self.rows && 0 <= c < self.cols
                ==> (#[trigger] self.entry(r, c)).spec_fuzzy_equals(ident_entry(r, c))),
    {
        if self.rows != self.cols {
            return false;
        }
        let n = self.rows;
        let zero = F::zero();
        let one = F::one();
        let mut i: usize = 0;
        while i < n * n
            invariant
                self.wf(),
                self.rows == n,
                self.cols == n,
                zero == F::spec_zero(),
                one == F::spec_one(),
                i <= n * n,
                forall|j: int| 0 <= j < i ==> (#[trigger] self.entry(j / n as int, j % n as int)).spec_fuzzy_equals(
                    ident_entry(j / n as int, j % n as int),
                ),
            decreases n * n - i,
        {
            proof {
                lemma_positive_factors(n as int, n as int);
                lemma_row_major(i as int, n as int, n as int);
            }
            let r = i / n;
            let c = i % n;
            let expected = if r == c { one } else { zero };
            if !self.get(r, c).fuzzy_equals(expected) {
                return false;
            }
            i = i + 1;
        }
        proof {
            assert forall|r: int, c: int| 0 <= r < n && 0 <= c < n implies (#[trigger] self.entry(r, c)).spec_fuzzy_equals(
                ident_entry(r, c),
            ) by {
                lemma_index_in_bounds(r, c, n as int, n as int);
                lemma_index_split(r, c, n as int);
                let j = r * n + c;
                assert(self.entry(j / n as int, j % n as int).spec_fuzzy_equals(ident_entry(j / n as int, j % n as int)));
            }
        }
        true
    }

    /// The Kronecker product: block `(r1, c1)` of the result is
    /// `self[r1, c1] * rhs`.
    pub fn tensor_product(&self, rhs: &Self) -> (m: Self)
        requires
            self.wf(),
            rhs.wf(),
            self.rows * rhs.rows <= usize::MAX,
            self.cols * rhs.cols <= usize::MAX,
            (self.rows * rhs.rows) * (self.cols * rhs.cols) <= usize::MAX,
        ensures
            m.wf(),
            m.rows == self.rows * rhs.rows,
            m.cols == self.cols * rhs.cols,
            is_tensor_of(m, *self, *rhs),
    {
        let rows = self.rows * rhs.rows;
        let cols = self.cols * rhs.cols;
        let size = rows * cols;
        let mut data: Vec<F> = Vec::new();
        let mut i: usize = 0;
        while i < size
            invariant
                self.wf(),
                rhs.wf(),
                rows == self.rows * rhs.rows,
                cols == self.cols * rhs.cols,
                size == rows * cols,
                i <= size,
                data.len() == i,
                forall|j: int| 0 <= j < i ==> #[trigger] data@[j] == self.entry((j / cols as int) / rhs.rows as int, (j % cols as int) / rhs.cols as int).spec_times(
                    rhs.entry((j / cols as int) % rhs.rows as int, (j % cols as int) % rhs.cols as int),
                ),
            decreases size - i,
        {
            proof {
                lemma_positive_factors(rows as int, cols as int);
                lemma_positive_factors(self.rows as int, rhs.rows as int);
                lemma_positive_factors(self.cols as int, rhs.cols as int);
                lemma_row_major(i as int, rows as int, cols as int);
                lemma_row_major(i as int / cols as int, self.rows as int, rhs.rows as int);
                lemma_row_major(i as int % cols as int, self.cols as int, rhs.cols as int);
            }
            let r = i / cols;
            let c = i % cols;
            let x = self.get(r / rhs.rows, c / rhs.cols).times(rhs.get(r % rhs.rows, c % rhs.cols));
            data.push(x);
            i = i + 1;
        }
        let m = Matrix { rows, cols, data };
        proof {
            assert forall|r1: int, r2: int, c1: int, c2: int|
                0 <= r1 < self.rows && 0 <= r2 < rhs.rows && 0 <= c1 < self.cols && 0 <= c2 < rhs.cols
                    implies #[trigger] m.entry(r1 * rhs.rows + r2, c1 * rhs.cols + c2) == self.entry(r1, c1).spec_times(
                    rhs.entry(r2, c2),
                ) by {
                let r = r1 * rhs.rows + r2;
                let c = c1 * rhs.cols + c2;
                lemma_index_in_bounds(r1, r2, self.rows as int, rhs.rows as int);
                lemma_index_in_bounds(c1, c2, self.cols as int, rhs.cols as int);
                lemma_index_in_bounds(r, c, rows as int, cols as int);
                lemma_index_split(r, c, cols as int);
                lemma_index_split(r1, r2, rhs.rows as int);
                lemma_index_split(c1, c2, rhs.cols as int);
                let j = r * cols + c;
                assert(data@[j] == self.entry((j / cols as int) / rhs.rows as int, (j % cols as int) / rhs.cols as int).spec_times(
                    rhs.entry((j / cols as int) % rhs.rows as int, (j % cols as int) % rhs.cols as int)));
            }
        }
        m
    }

    /// The controlled form of a square matrix `g` of size `n`: size `2n`, the
    /// identity in the top-left block, `g` in the bottom-right block, zeros
    /// elsewhere.
    pub fn controlled(g: &Self) -> (m: Self)
        requires
            g.wf(),
            g.rows == g.cols,
            (2 * g.rows) * (2 * g.rows) <= usize::MAX,
        ensures
            m.wf(),
            m.rows == 2 * g.rows,
            m.cols == 2 * g.rows,
            forall|r: int, c: int| 0 <= r < m.rows && 0 <= c < m.cols ==> #[trigger] m.entry(r, c) == if r >= g.rows && c >= g.rows {
                g.entry(r - g.rows, c - g.rows)
            } else {
                ident_entry::<F>(r, c)
            },
    {
        let n = g.rows;
        proof {
            if n > 0 {
                lemma_mul_inequality(1, 2 * n as int, 2 * n as int);
            }
        }
        let mut m = Self::eye(2 * n);
        let mut i: usize = 0;
        while i < n * n
            invariant
                g.wf(),
                g.rows == n,
                g.cols == n,
                m.wf(),
                m.rows == 2 * n,
                m.cols == 2 * n,
                (2 * n) * (2 * n) <= usize::MAX,
                i <= n * n,
                forall|r: int, c: int| 0 <= r < 2 * n && 0 <= c < 2 * n ==> #[trigger] m.entry(r, c) == if r >= n && c >= n && (r - n) * n + (c - n) < i {
                    g.entry(r - n, c - n)
                } else {
                    ident_entry::<F>(r, c)
                },
            decreases n * n - i,
        {
            proof {
                lemma_positive_factors(n as int, n as int);
                lemma_row_major(i as int, n as int, n as int);
            }
            let r = i / n;
            let c = i % n;
            let ghost old_m = m;
            let x = g.get(r, c);
            m.set(n + r, n + c, x);
            proof {
                assert forall|a: int, b: int| 0 <= a < 2 * n && 0 <= b < 2 * n implies #[trigger] m.entry(a, b) == if a >= n && b >= n && (a - n) * n + (b - n) < i + 1 {
                    g.entry(a - n, b - n)
                } else {
                    ident_entry::<F>(a, b)
                } by {
                    lemma_index_in_bounds(a, b, 2 * n as int, 2 * n as int);
                    lemma_index_in_bounds(n + r as int, n + c as int, 2 * n as int, 2 * n as int);
                    if a == n + r && b == n + c {
                        assert((a - n) * n + (b - n) == i);
                    } else {
                        lemma_index_injective(a, b, n + r as int, n + c as int, 2 * n as int);
                        assert(m.entry(a, b) == old_m.entry(a, b));
                        if a >= n && b >= n {
                            lemma_index_in_bounds(a - n, b - n, n as int, n as int);
                            lemma_index_injective(a - n, b - n, r as int, c as int, n as int);
                        }
                    }
                }
            }
            i = i + 1;
        }
        proof {
            assert forall|a: int, b: int| 0 <= a < 2 * n && 0 <= b < 2 * n implies #[trigger] m.entry(a, b) == if a >= n && b >= n {
                g.entry(a - n, b - n)
            } else {
                ident_entry::<F>(a, b)
            } by {
                if a >= n && b >= n {
                    lemma_index_in_bounds(a - n, b - n, n as int, n as int);
                }
            }
        }
        m
    }

    /// The operator on a register of `num_qubits` qubits that applies `g` to
    /// qubits `[start, end)` and leaves the others: `I(2^start) (x) g (x)
    /// I(2^(num_qubits - end))`.
    pub fn embed(g: &Self, num_qubits: usize, start: usize, end: usize) -> (m: Self)
        requires
            g.wf(),
            start <= end <= num_qubits,
            g.rows == pow2((end - start) as nat),
            g.cols == g.rows,
            pow2(num_qubits as nat) * pow2(num_qubits as nat) <= usize::MAX,
        ensures
            m.wf(),
            m.rows == pow2(num_qubits as nat),
            m.cols == pow2(num_qubits as nat),
            forall|l1: int, l2: int, a: int, b: int, q1: int, q2: int|
                0 <= l1 < pow2(start as nat) && 0 <= l2 < pow2(start as nat) && 0 <= a < g.rows && 0 <= b < g.rows
                    && 0 <= q1 < pow2((num_qubits - end) as nat) && 0 <= q2 < pow2((num_qubits - end) as nat)
                    ==> #[trigger] m.entry(
                    (l1 * g.rows + a) * pow2((num_qubits - end) as nat) + q1,
                    (l2 * g.rows + b) * pow2((num_qubits - end) as nat) + q2,
                ) == ident_entry::<F>(l1, l2).spec_times(g.entry(a, b)).spec_times(ident_entry::<F>(q1, q2)),
    {
        let ghost total = pow2(num_qubits as nat) as int;
        let ghost left = pow2(start as nat) as int;
        let ghost mid = pow2((end - start) as nat) as int;
        let ghost right = pow2((num_qubits - end) as nat) as int;
        proof {
            lemma_pow2_adds(start as nat, (end - start) as nat);
            lemma_pow2_adds(end as nat, (num_qubits - end) as nat);
            assert(start as nat + (end - start) as nat == end as nat);
            assert(end as nat + (num_qubits - end) as nat == num_qubits as nat);
            lemma_pow2_pos(start as nat);
            lemma_pow2_pos((end - start) as nat);
            lemma_pow2_pos((num_qubits - end) as nat);
            lemma_pow2_pos(num_qubits as nat);
            lemma_factor_le(left, mid);
            lemma_factor_le(mid, left);
            lemma_mul_is_commutative(mid, left);
            lemma_factor_le(left * mid, right);
            lemma_factor_le(right, left * mid);
            lemma_mul_is_commutative(right, left * mid);
            lemma_square_le(left, total);
            lemma_square_le(right, total);
            lemma_square_le(left * mid, total);
            lemma_factor_le(total, total);
        }
        let left_size = num_qubits_to_size(start);
        let right_size = num_qubits_to_size(num_qubits - end);
        let left_id = Self::eye(left_size);
        let right_id = Self::eye(right_size);
        let head = left_id.tensor_product(g);
        let m = head.tensor_product(&right_id);
        proof {
            assert forall|l1: int, l2: int, a: int, b: int, q1: int, q2: int|
                0 <= l1 < left && 0 <= l2 < left && 0 <= a < g.rows && 0 <= b < g.rows && 0 <= q1 < right && 0 <= q2
                    < right implies #[trigger] m.entry((l1 * g.rows + a) * right + q1, (l2 * g.rows + b) * right + q2)
                == ident_entry::<F>(l1, l2).spec_times(g.entry(a, b)).spec_times(ident_entry::<F>(q1, q2)) by {
                lemma_index_in_bounds(l1, a, left, g.rows as int);
                lemma_index_in_bounds(l2, b, left, g.rows as int);
                assert(head.entry(l1 * g.rows + a, l2 * g.rows + b) == left_id.entry(l1, l2).spec_times(g.entry(a, b)));
                assert(right_id.entry(q1, q2) == ident_entry::<F>(q1, q2));
            }
        }
        m
    }

    /// Entry-wise sum; `Err` when the sizes differ.
    pub fn add(&self, rhs: &Self) -> (m: Result<Self, ()>)
        requires
            self.wf(),
            rhs.wf(),
        ensures
            m is Ok <==> self.rows == rhs.rows && self.cols == rhs.cols,
            m matches Ok(m) ==> m.wf() && m.rows == self.rows && m.cols == self.cols && forall|i: int| 0 <= i < m.data.len()
                ==> #[trigger] m.data[i] == self.data[i].spec_plus(rhs.data[i]),
    {
        if self.rows != rhs.rows || self.cols != rhs.cols {
            return Err(());
        }
        let mut data: Vec<F> = Vec::new();
        let mut i: usize = 0;
        while i < self.data.len()
            invariant
                self.wf(),
                rhs.wf(),
                self.rows == rhs.rows,
                self.cols == rhs.cols,
                i <= self.data.len(),
                data.len() == i,
                forall|j: int| 0 <= j < i ==> #[trigger] data@[j] == self.data[j].spec_plus(rhs.data[j]),
            decreases self.data.len() - i,
        {
            data.push(self.data[i].plus(rhs.data[i]));
            i = i + 1;
        }
        Ok(Matrix { rows: self.rows, cols: self.cols, data })
    }

    /// Entry-wise difference; `Err` when the sizes differ.
    pub fn sub(&self, rhs: &Self) -> (m: Result<Self, ()>)
        requires
            self.wf(),
            rhs.wf(),
        ensures
            m is Ok <==> self.rows == rhs.rows && self.cols == rhs.cols,
            m matches Ok(m) ==> m.wf() && m.rows == self.rows && m.cols == self.cols && forall|i: int| 0 <= i < m.data.len()
                ==> #[trigger] m.data[i] == self.data[i].spec_minus(rhs.data[i]),
    {
        if self.rows != rhs.rows || self.cols != rhs.cols {
            return Err(());
        }
        let mut data: Vec<F> = Vec::new();
        let mut i: usize = 0;
        while i < self.data.len()
            invariant
                self.wf(),
                rhs.wf(),
                self.rows == rhs.rows,
                self.cols == rhs.cols,
                i <= self.data.len(),
                data.len() == i,
                forall|j: int| 0 <= j < i ==> #[trigger] data@[j] == self.data[j].spec_minus(rhs.data[j]),
            decreases self.data.len() - i,
        {
            data.push(self.data[i].minus(rhs.data[i]));
            i = i + 1;
        }
        Ok(Matrix { rows: self.rows, cols: self.cols, data })
    }

    /// Every entry negated.
    pub fn neg(&self) -> (m: Self)
        requires
            self.wf(),
        ensures
            m.wf(),
            m.rows == self.rows,
            m.cols == self.cols,
            forall|i: int| 0 <= i < m.data.len() ==> #[trigger] m.data[i] == self.data[i].spec_negate(),
    {
        let mut data: Vec<F> = Vec::new();
        let mut i: usize = 0;
        while i < self.data.len()
            invariant
                self.wf(),
                i <= self.data.len(),
                data.len() == i,
                forall|j: int| 0 <= j < i ==> #[trigger] data@[j] == self.data[j].spec_negate(),
            decreases self.data.len() - i,
        {
            data.push(self.data[i].negate());
            i = i + 1;
        }
        Matrix { rows: self.rows, cols: self.cols, data }
    }

    /// Every entry multiplied by `c`.
    pub fn scale(&self, c: F) -> (m: Self)
        requires
            self.wf(),
        ensures
            m.wf(),
            m.rows == self.rows,
            m.cols == self.cols,
            forall|i: int| 0 <= i < m.data.len() ==> #[trigger] m.data[i] == self.data[i].spec_times(c),
    {
        let mut data: Vec<F> = Vec::new();
        let mut i: usize = 0;
        while i < self.data.len()
            invariant
                self.wf(),
                i <= self.data.len(),
                data.len() == i,
                forall|j: int| 0 <= j < i ==> #[trigger] data@[j] == self.data[j].spec_times(c),
            decreases self.data.len() - i,
        {
            data.push(self.data[i].times(c));
            i = i + 1;
        }
        Matrix { rows: self.rows, cols: self.cols, data }
    }

    /// A copy with the same entries.
    pub fn clone_entries(&self) -> (m: Self)
        ensures
            m.rows == self.rows,
            m.cols == self.cols,
            m.data@ == self.data@,
    {
        let mut data: Vec<F> = Vec::new();
        let mut i: usize = 0;
        while i < self.data.len()
            invariant
                i <= self.data.len(),
                data@ == self.data@.take(i as int),
            decreases self.data.len() - i,
        {
            data.push(self.data[i]);
            i = i + 1;
            assert(data@ =~= self.data@.take(i as int));
        }
        assert(self.data@.take(i as int) =~= self.data@);
        Matrix { rows: self.rows, cols: self.cols, data }
    }

    /// Entry `(r, c)` of `self * rhs`: `sum_k self[r, k] * rhs[k, c]`.
    fn product_entry(&self, rhs: &Self, r: usize, c: usize) -> (x: F)
        requires
            self.wf(),
            rhs.wf(),
            self.cols == rhs.rows,
            r < self.rows,
            c < rhs.cols,
        ensures
            x == product_upto(*self, *rhs, r as int, c as int, self.cols as nat),
    {
        let mut sum = F::zero();
        let mut k: usize = 0;
        while k < self.cols
            invariant
                self.wf(),
                rhs.wf(),
                self.cols == rhs.rows,
                r < self.rows,
                c < rhs.cols,
                k <= self.cols,
                sum == product_upto(*self, *rhs, r as int, c as int, k as nat),
            decreases self.cols - k,
        {
            sum = sum.plus(self.get(r, k).times(rhs.get(k, c)));
            k = k + 1;
        }
        sum
    }

    /// The matrix product; `Err` when the column count of `self` differs
    /// from the row count of `rhs`. Entry `(i, j)` is `sum_t self[i, t] * rhs[t, j]`.
    pub fn mul(&self, rhs: &Self) -> (m: Result<Self, ()>)
        requires
            self.wf(),
            rhs.wf(),
            self.rows * rhs.cols <= usize::MAX,
        ensures
            m is Ok <==> self.cols == rhs.rows,
            m matches Ok(m) ==> {
                &&& m.wf()
                &&& m.rows == self.rows
                &&& m.cols == rhs.cols
                &&& forall|i: int, j: int| 0 <= i < m.rows && 0 <= j < m.cols
                    ==> #[trigger] m.entry(i, j) == product_upto(*self, *rhs, i, j, self.cols as nat)
            },
    {
        if self.cols != rhs.rows {
            return Err(());
        }
        let rows = self.rows;
        let cols = rhs.cols;
        let size = rows * cols;
        let mut data: Vec<F> = Vec::new();
        let mut i: usize = 0;
        while i < size
            invariant
                self.wf(),
                rhs.wf(),
                self.cols == rhs.rows,
                rows == self.rows,
                cols == rhs.cols,
                size == rows * cols,
                i <= size,
                data.len() == i,
                forall|j: int| 0 <= j < i ==> #[trigger] data@[j] == product_upto(*self, *rhs, j / cols as int, j % cols as int, self.cols as nat),
            decreases size - i,
        {
            proof {
                lemma_positive_factors(rows as int, cols as int);
                lemma_row_major(i as int, rows as int, cols as int);
            }
            let x = self.product_entry(rhs, i / cols, i % cols);
            data.push(x);
            i = i + 1;
        }
        let m = Matrix { rows, cols, data };
        proof {
            assert forall|a: int, b: int| 0 <= a < m.rows && 0 <= b < m.cols implies #[trigger] m.entry(a, b) == product_upto(*self, *rhs, a, b, self.cols as nat) by {
                lemma_index_in_bounds(a, b, rows as int, cols as int);
                lemma_index_split(a, b, cols as int);
            }
        }
        Ok(m)
    }

    /// The product with a column vector; `Err` when the column count differs
    /// from the vector's dimension. Entry `i` is `sum_j self[i, j] * v[j]`.
    pub fn mul_vector(&self, v: &Vector<F>) -> (r: Result<Vector<F>, ()>)
        requires
            self.wf(),
        ensures
            r is Ok <==> self.cols == v.data.len(),
            r matches Ok(w) ==> w.data.len() == self.rows && forall|i: int| 0 <= i < self.rows
                ==> #[trigger] w.data[i] == row_times_upto(*self, v.data@, i, self.cols as nat),
    {
        if self.cols != v.data.len() {
            return Err(());
        }
        let mut data: Vec<F> = Vec::new();
        let mut r: usize = 0;
        while r < self.rows
            invariant
                self.wf(),
                self.cols == v.data.len(),
                r <= self.rows,
                data.len() == r,
                forall|i: int| 0 <= i < r ==> #[trigger] data@[i] == row_times_upto(*self, v.data@, i, self.cols as nat),
            decreases self.rows - r,
        {
            let mut sum = F::zero();
            let mut k: usize = 0;
            while k < self.cols
                invariant
                    self.wf(),
                    self.cols == v.data.len(),
                    r < self.rows,
                    k <= self.cols,
                    sum == row_times_upto(*self, v.data@, r as int, k as nat),
                decreases self.cols - k,
            {
                sum = sum.plus(self.get(r, k).times(v.data[k]));
                k = k + 1;
            }
            data.push(sum);
            r = r + 1;
        }
        Ok(Vector { data })
    }

    /// Whether the matrix is square and both `M^dagger M` and `M M^dagger` are
    /// the identity up to rounding error.
    pub fn is_unitary(&self) -> (b: bool)
        requires
            self.wf(),
        ensures
            b == (self.rows == self.cols
                && (forall|i: int, j: int| 0 <= i < self.rows && 0 <= j < self.rows
                    ==> (#[trigger] gram_upto(*self, i, j, self.rows as nat)).spec_fuzzy_equals(ident_entry(i, j)))
                && (forall|i: int, j: int| 0 <= i < self.rows && 0 <= j < self.rows
                    ==> (#[trigger] cogram_upto(*self, i, j, self.rows as nat)).spec_fuzzy_equals(ident_entry(i, j)))),
    {
        if self.rows != self.cols {
            return false;
        }
        let n = self.rows;
        let adjoint = self.adjoint();
        let left = adjoint.mul(self);
        let right = self.mul(&adjoint);
        match (left, right) {
            (Ok(left), Ok(right)) => {
                proof {
                    assert forall|i: int, j: int| 0 <= i < n && 0 <= j < n implies left.entry(i, j) == gram_upto(*self, i, j, n as nat)
                        && right.entry(i, j) == cogram_upto(*self, i, j, n as nat) by {
                        lemma_adjoint_products(*self, adjoint, i, j, n as nat);
                    }
                }
                let l = left.is_identity();
                let r = right.is_identity();
                proof {
                    if l {
                        assert forall|i: int, j: int| 0 <= i < n && 0 <= j < n implies (#[trigger] gram_upto(*self, i, j, n as nat)).spec_fuzzy_equals(ident_entry(i, j)) by {
                            assert(left.entry(i, j).spec_fuzzy_equals(ident_entry(i, j)));
                        }
                    } else {
                        let (i, j) = choose|i: int, j: int| 0 <= i < n && 0 <= j < n && !(#[trigger] left.entry(i, j)).spec_fuzzy_equals(ident_entry(i, j));
                        assert(!gram_upto(*self, i, j, n as nat).spec_fuzzy_equals(ident_entry(i, j)));
                    }
                    if r {
                        assert forall|i: int, j: int| 0 <= i < n && 0 <= j < n implies (#[trigger] cogram_upto(*self, i, j, n as nat)).spec_fuzzy_equals(ident_entry(i, j)) by {
                            assert(right.entry(i, j).spec_fuzzy_equals(ident_entry(i, j)));
                        }
                    } else {
                        let (i, j) = choose|i: int, j: int| 0 <= i < n && 0 <= j < n && !(#[trigger] right.entry(i, j)).spec_fuzzy_equals(ident_entry(i, j));
                        assert(!cogram_upto(*self, i, j, n as nat).spec_fuzzy_equals(ident_entry(i, j)));
                    }
                }
                l && r
            },
            _ => false,
        }
    }
}

proof fn lemma_adjoint_products<F: Complex>(m: Matrix<F>, adj: Matrix<F>, i: int, j: int, k: nat)
    requires
        m.rows == m.cols,
        adj.rows == m.rows,
        adj.cols == m.rows,
        0 <= i < m.rows,
        0 <= j < m.rows,
        k <= m.rows,
        forall|r: int, c: int| 0 <= r < adj.rows && 0 <= c < adj.cols ==> #[trigger] adj.entry(r, c) == m.entry(c, r).spec_conjugate(),
    ensures
        product_upto(adj, m, i, j, k) == gram_upto(m, i, j, k),
        product_upto(m, adj, i, j, k) == cogram_upto(m, i, j, k),
    decreases k,
{
    if k > 0 {
        lemma_adjoint_products(m, adj, i, j, (k - 1) as nat);
        assert(adj.entry(i, k - 1) == m.entry(k - 1, i).spec_conjugate());
        assert(adj.entry(k - 1, j) == m.entry(j, k - 1).spec_conjugate());
    }
}

} // verus!
