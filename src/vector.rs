//! Dense vectors over a complex scalar.
use vstd::prelude::*;
use crate::complex::Complex;
use vstd::arithmetic::mul::{lemma_mul_inequality, lemma_mul_is_commutative, lemma_mul_is_distributive_add_other_way};
use vstd::arithmetic::div_mod::lemma_fundamental_div_mod;

verus! {

/// A vector: its entries in order.
#[derive(Clone, PartialEq, Debug)]
pub struct Vector<F: Complex> {
    pub data: Vec<F>,
}

/// Whether `i < rows * cols` splits into row `i / cols` below `rows` and
/// column `i % cols`; used for row-major layouts.
pub proof fn lemma_row_major(i: int, rows: int, cols: int)
    requires
        cols > 0,
        0 <= i < rows * cols,
    ensures
        0 <= i / cols < rows,
        0 <= i % cols < cols,
        i == (i / cols) * cols + i % cols,
{
    lemma_fundamental_div_mod(i, cols);
    lemma_mul_is_commutative(i / cols, cols);
    if i / cols >= rows {
        lemma_mul_inequality(rows, i / cols, cols);
    }
}

/// Factors of a positive product are positive.
pub proof fn lemma_positive_factors(a: int, b: int)
    requires
        a >= 0,
        b >= 0,
        a * b > 0,
    ensures
        a > 0,
        b > 0,
{
    if a == 0 {
        assert(a * b == 0);
    }
    if b == 0 {
        assert(a * b == 0);
    }
}

/// A row-major index of an entry lies within the array.
pub proof fn lemma_index_in_bounds(r: int, c: int, rows: int, cols: int)
    requires
        0 <= r < rows,
        0 <= c < cols,
    ensures
        0 <= r * cols + c < rows * cols,
{
    lemma_mul_inequality(r + 1, rows, cols);
    lemma_mul_is_distributive_add_other_way(cols, r, 1);
    lemma_mul_inequality(0, r, cols);
}

/// `sum_{i < n} conj(a[i]) * b[i]`, added up from the left starting at zero.
pub open spec fn dot_upto<F: Complex>(a: Seq<F>, b: Seq<F>, n: nat) -> F
    decreases n,
{
    if n == 0 {
        F::spec_zero()
    } else {
        dot_upto(a, b, (n - 1) as nat).spec_plus(a[n - 1].spec_conjugate().spec_times(b[n - 1]))
    }
}

/// The inner product of two sequences of one length, conjugate-linear in `a`.
pub open spec fn spec_dot<F: Complex>(a: Seq<F>, b: Seq<F>) -> F {
    dot_upto(a, b, a.len())
}

/// Whether one of the first `n` entries of `indices` is `k`.
pub open spec fn lists(indices: Seq<usize>, n: int, k: int) -> bool {
    exists|j: int| 0 <= j < n && indices[j] as int == k
}

impl<F: Complex> Vector<F> {
    /// The zero vector of dimension `n`.
    pub fn zero(n: usize) -> (v: Self)
        ensures
            v.data.len() == n,
            forall|i: int| 0 <= i < n ==> v.data[i] == F::spec_zero(),
    {
        let mut data: Vec<F> = Vec::new();
        let mut i: usize = 0;
        while i < n
            invariant
                i <= n,
                data.len() == i,
                forall|j: int| 0 <= j < i ==> data[j] == F::spec_zero(),
            decreases n - i,
        {
            data.push(F::zero());
            i = i + 1;
        }
        Vector { data }
    }

    pub fn from_vec(data: Vec<F>) -> (v: Self)
        ensures
            v.data@ == data@,
    {
        Vector { data }
    }

    pub fn dim(&self) -> (n: usize)
        ensures
            n == self.data.len(),
    {
        self.data.len()
    }

    pub fn get(&self, index: usize) -> (x: F)
        requires
            index < self.data.len(),
        ensures
            x == self.data[index as int],
    {
        self.data[index]
    }

    /// The inner product `sum conj(a_i) * b_i`, conjugate-linear in `self`;
    /// `Err` when the dimensions differ.
    pub fn dot(&self, rhs: &Self) -> (r: Result<F, ()>)
        ensures
            r is Ok <==> self.data.len() == rhs.data.len(),
            r matches Ok(z) ==> z == spec_dot(self.data@, rhs.data@),
    {
        if self.data.len() != rhs.data.len() {
            return Err(());
        }
        let mut sum = F::zero();
        let mut i: usize = 0;
        while i < self.data.len()
            invariant
                i <= self.data.len(),
                self.data.len() == rhs.data.len(),
                sum == dot_upto(self.data@, rhs.data@, i as nat),
            decreases self.data.len() - i,
        {
            sum = sum.plus(self.data[i].conjugate().times(rhs.data[i]));
            i = i + 1;
        }
        Ok(sum)
    }

    /// Entry-wise equality up to rounding error, of vectors of one dimension.
    pub fn fuzzy_equals(&self, rhs: &Self) -> (r: bool)
        ensures
            r == (self.data.len() == rhs.data.len() && forall|i: int| 0 <= i < self.data.len()
                ==> (#[trigger] self.data[i]).spec_fuzzy_equals(rhs.data[i])),
    {
        if self.data.len() != rhs.data.len() {
            return false;
        }
        let mut i: usize = 0;
        while i < self.data.len()
            invariant
                i <= self.data.len(),
                self.data.len() == rhs.data.len(),
                forall|j: int| 0 <= j < i ==> (#[trigger] self.data[j]).spec_fuzzy_equals(rhs.data[j]),
            decreases self.data.len() - i,
        {
            if !self.data[i].fuzzy_equals(rhs.data[i]) {
                return false;
            }
            i = i + 1;
        }
        true
    }

    /// The Kronecker product: entry `i * rhs.dim() + j` is `self[i] * rhs[j]`.
    pub fn tensor_product(&self, rhs: &Self) -> (v: Self)
        requires
            self.data.len() * rhs.data.len() <= usize::MAX,
        ensures
            v.data.len() == self.data.len() * rhs.data.len(),
            forall|i: int, j: int| 0 <= i < self.data.len() && 0 <= j < rhs.data.len()
                ==> #[trigger] v.data[i * rhs.data.len() + j] == self.data[i].spec_times(rhs.data[j]),
    {
        let n = self.data.len();
        let m = rhs.data.len();
        let mut data: Vec<F> = Vec::new();
        let mut i: usize = 0;
        while i < n
            invariant
                i <= n,
                n == self.data.len(),
                m == rhs.data.len(),
                n * m <= usize::MAX,
                data.len() == i * m,
                forall|a: int, b: int| 0 <= a < i && 0 <= b < m ==> #[trigger] data@[a * m + b] == self.data[a].spec_times(rhs.data[b]),
            decreases n - i,
        {
            let mut j: usize = 0;
            proof {
                lemma_mul_inequality(i as int + 1, n as int, m as int);
                lemma_mul_is_distributive_add_other_way(m as int, i as int, 1);
            }
            while j < m
                invariant
                    i < n,
                    j <= m,
                    n == self.data.len(),
                    m == rhs.data.len(),
                    (i + 1) * m <= usize::MAX,
                    (i + 1) * m == i * m + m,
                    data.len() == i * m + j,
                    forall|a: int, b: int| 0 <= a < i && 0 <= b < m ==> #[trigger] data@[a * m + b] == self.data[a].spec_times(rhs.data[b]),
                    forall|b: int| 0 <= b < j ==> #[trigger] data@[i * m + b] == self.data[i as int].spec_times(rhs.data[b]),
                decreases m - j,
            {
                let ghost before = data@;
                data.push(self.data[i].times(rhs.data[j]));
                proof {
                    assert forall|a: int, b: int| 0 <= a < i && 0 <= b < m implies #[trigger] data@[a * m + b] == self.data[a].spec_times(rhs.data[b]) by {
                        lemma_index_in_bounds(a, b, i as int, m as int);
                        assert(data@[a * m + b] == before[a * m + b]);
                    }
                }
                j = j + 1;
            }
            proof {
                assert forall|a: int, b: int| 0 <= a < i + 1 && 0 <= b < m implies #[trigger] data@[a * m + b] == self.data[a].spec_times(rhs.data[b]) by {
                    if a == i {
                        assert(data@[i * m + b] == self.data[i as int].spec_times(rhs.data[b]));
                    }
                }
            }
            i = i + 1;
        }
        Vector { data }
    }

    /// Entry-wise sum; `Err` when the dimensions differ.
    pub fn add(&self, rhs: &Self) -> (r: Result<Self, ()>)
        ensures
            r is Ok <==> self.data.len() == rhs.data.len(),
            r matches Ok(v) ==> v.data.len() == self.data.len() && forall|i: int| 0 <= i < v.data.len()
                ==> #[trigger] v.data[i] == self.data[i].spec_plus(rhs.data[i]),
    {
        if self.data.len() != rhs.data.len() {
            return Err(());
        }
        let mut data: Vec<F> = Vec::new();
        let mut i: usize = 0;
        while i < self.data.len()
            invariant
                i <= self.data.len(),
                self.data.len() == rhs.data.len(),
                data.len() == i,
                forall|j: int| 0 <= j < i ==> #[trigger] data[j] == self.data[j].spec_plus(rhs.data[j]),
            decreases self.data.len() - i,
        {
            data.push(self.data[i].plus(rhs.data[i]));
            i = i + 1;
        }
        Ok(Vector { data })
    }

    /// Entry-wise difference; `Err` when the dimensions differ.
    pub fn sub(&self, rhs: &Self) -> (r: Result<Self, ()>)
        ensures
            r is Ok <==> self.data.len() == rhs.data.len(),
            r matches Ok(v) ==> v.data.len() == self.data.len() && forall|i: int| 0 <= i < v.data.len()
                ==> #[trigger] v.data[i] == self.data[i].spec_minus(rhs.data[i]),
    {
        if self.data.len() != rhs.data.len() {
            return Err(());
        }
        let mut data: Vec<F> = Vec::new();
        let mut i: usize = 0;
        while i < self.data.len()
            invariant
                i <= self.data.len(),
                self.data.len() == rhs.data.len(),
                data.len() == i,
                forall|j: int| 0 <= j < i ==> #[trigger] data[j] == self.data[j].spec_minus(rhs.data[j]),
            decreases self.data.len() - i,
        {
            data.push(self.data[i].minus(rhs.data[i]));
            i = i + 1;
        }
        Ok(Vector { data })
    }

    /// The entries at the given indices, in their order.
    pub fn gather(&self, indices: &Vec<usize>) -> (v: Self)
        requires
            forall|i: int| 0 <= i < indices.len() ==> #[trigger] indices[i] < self.data.len(),
        ensures
            v.data.len() == indices.len(),
            forall|i: int| 0 <= i < indices.len() ==> #[trigger] v.data[i] == self.data[indices[i] as int],
    {
        let mut data: Vec<F> = Vec::new();
        let mut i: usize = 0;
        while i < indices.len()
            invariant
                i <= indices.len(),
                forall|j: int| 0 <= j < indices.len() ==> #[trigger] indices[j] < self.data.len(),
                data.len() == i,
                forall|j: int| 0 <= j < i ==> #[trigger] data[j] == self.data[indices[j] as int],
            decreases indices.len() - i,
        {
            data.push(self.data[indices[i]]);
            i = i + 1;
        }
        Vector { data }
    }

    /// Sets the entries at the given indices to zero and keeps the others.
    pub fn zero_out(&mut self, indices: &Vec<usize>)
        requires
            forall|i: int| 0 <= i < indices.len() ==> #[trigger] indices[i] < old(self).data.len(),
        ensures
            final(self).data.len() == old(self).data.len(),
            forall|k: int| 0 <= k < final(self).data.len() ==> #[trigger] final(self).data[k] == if lists(indices@, indices.len() as int, k) {
                F::spec_zero()
            } else {
                old(self).data[k]
            },
    {
        let ghost orig = self.data@;
        let zero = F::zero();
        let mut i: usize = 0;
        while i < indices.len()
            invariant
                i <= indices.len(),
                forall|j: int| 0 <= j < indices.len() ==> #[trigger] indices[j] < orig.len(),
                self.data.len() == orig.len(),
                zero == F::spec_zero(),
                forall|k: int| 0 <= k < orig.len() ==> #[trigger] self.data[k] == if lists(indices@, i as int, k) {
                    F::spec_zero()
                } else {
                    orig[k]
                },
            decreases indices.len() - i,
        {
            let ghost before = self.data@;
            self.data.set(indices[i], zero);
            proof {
                assert forall|k: int| 0 <= k < orig.len() implies #[trigger] self.data[k] == if lists(indices@, i + 1, k) {
                    F::spec_zero()
                } else {
                    orig[k]
                } by {
                    if k == indices[i as int] as int {
                        assert(lists(indices@, i + 1, k));
                    } else {
                        assert(self.data[k] == before[k]);
                        if lists(indices@, i + 1, k) {
                            let j = choose|j: int| 0 <= j < i + 1 && indices@[j] as int == k;
                            assert(lists(indices@, i as int, k));
                        }
                    }
                }
            }
            i = i + 1;
        }
    }

    /// Every entry negated.
    pub fn neg(&self) -> (v: Self)
        ensures
            v.data.len() == self.data.len(),
            forall|i: int| 0 <= i < v.data.len() ==> #[trigger] v.data[i] == self.data[i].spec_negate(),
    {
        let mut data: Vec<F> = Vec::new();
        let mut i: usize = 0;
        while i < self.data.len()
            invariant
                i <= self.data.len(),
                data.len() == i,
                forall|j: int| 0 <= j < i ==> #[trigger] data[j] == self.data[j].spec_negate(),
            decreases self.data.len() - i,
        {
            data.push(self.data[i].negate());
            i = i + 1;
        }
        Vector { data }
    }

    /// Every entry multiplied by `c`.
    pub fn scale(&self, c: F) -> (v: Self)
        ensures
            v.data.len() == self.data.len(),
            forall|i: int| 0 <= i < v.data.len() ==> #[trigger] v.data[i] == self.data[i].spec_times(c),
    {
        let mut data: Vec<F> = Vec::new();
        let mut i: usize = 0;
        while i < self.data.len()
            invariant
                i <= self.data.len(),
                data.len() == i,
                forall|j: int| 0 <= j < i ==> #[trigger] data[j] == self.data[j].spec_times(c),
            decreases self.data.len() - i,
        {
            data.push(self.data[i].times(c));
            i = i + 1;
        }
        Vector { data }
    }
}

} // verus!
