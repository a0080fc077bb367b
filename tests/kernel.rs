use quantum_stuff::complex::Complex;
use quantum_stuff::matrix::Matrix;
use quantum_stuff::vector::Vector;

#[derive(Clone, Copy, PartialEq, Debug)]
struct C64 {
    r: f64,
    i: f64,
}

const EPSILON: f64 = f64::EPSILON * 10.0;

impl Complex for C64 {
    fn spec_zero() -> Self {
        Self::zero()
    }
    fn spec_one() -> Self {
        Self::one()
    }
    fn spec_plus(self, rhs: Self) -> Self {
        self.plus(rhs)
    }
    fn spec_minus(self, rhs: Self) -> Self {
        self.minus(rhs)
    }
    fn spec_times(self, rhs: Self) -> Self {
        self.times(rhs)
    }
    fn spec_negate(self) -> Self {
        self.negate()
    }
    fn spec_conjugate(self) -> Self {
        self.conjugate()
    }
    fn spec_fuzzy_equals(self, rhs: Self) -> bool {
        self.fuzzy_equals(rhs)
    }
    fn zero() -> Self {
        C64 { r: 0.0, i: 0.0 }
    }
    fn one() -> Self {
        C64 { r: 1.0, i: 0.0 }
    }
    fn plus(self, rhs: Self) -> Self {
        C64 { r: self.r + rhs.r, i: self.i + rhs.i }
    }
    fn minus(self, rhs: Self) -> Self {
        C64 { r: self.r - rhs.r, i: self.i - rhs.i }
    }
    fn times(self, rhs: Self) -> Self {
        C64 { r: self.r * rhs.r - self.i * rhs.i, i: self.r * rhs.i + self.i * rhs.r }
    }
    fn negate(self) -> Self {
        C64 { r: -self.r, i: -self.i }
    }
    fn conjugate(self) -> Self {
        C64 { r: self.r, i: -self.i }
    }
    fn fuzzy_equals(self, rhs: Self) -> bool {
        (self.r - rhs.r).abs() < EPSILON && (self.i - rhs.i).abs() < EPSILON
    }
}

fn c(r: f64, i: f64) -> C64 {
    C64 { r, i }
}

fn vector(entries: Vec<C64>) -> Vector<C64> {
    Vector::from_vec(entries)
}

fn matrix(rows: Vec<Vec<C64>>) -> Matrix<C64> {
    Matrix::from_rows(rows.into_iter().map(Vector::from_vec).collect()).unwrap()
}

#[test]
fn matrix_test_vector_space() {
    let a = matrix(vec![vec![c(1.0, -1.0), c(3.0, 0.0)], vec![c(2.0, 2.0), c(4.0, 1.0)]]);
    assert_eq!(a.add(&a).unwrap(), a.scale(c(2.0, 0.0)));
    assert_eq!(a.neg().sub(&a).unwrap(), a.scale(c(-2.0, 0.0)));
}

#[test]
fn matrix_test_matrix_multiplication() {
    let a = matrix(vec![
        vec![c(3.0, 2.0), c(0.0, 0.0), c(5.0, -6.0)],
        vec![c(1.0, 0.0), c(4.0, 2.0), c(0.0, 1.0)],
        vec![c(4.0, -1.0), c(0.0, 0.0), c(4.0, 0.0)],
    ]);
    let b = matrix(vec![
        vec![c(5.0, 0.0), c(2.0, -1.0), c(6.0, -4.0)],
        vec![c(0.0, 0.0), c(4.0, 5.0), c(2.0, 0.0)],
        vec![c(7.0, -4.0), c(2.0, 7.0), c(0.0, 0.0)],
    ]);
    let ab = matrix(vec![
        vec![c(26.0, -52.0), c(60.0, 24.0), c(26.0, 0.0)],
        vec![c(9.0, 7.0), c(1.0, 29.0), c(14.0, 0.0)],
        vec![c(48.0, -21.0), c(15.0, 22.0), c(20.0, -22.0)],
    ]);
    assert_eq!(a.mul(&b).unwrap(), ab);
}

#[test]
fn matrix_test_tensor_product() {
    let a = matrix(vec![vec![c(1.0, 0.0), c(2.0, 0.0)], vec![c(0.0, 0.0), c(1.0, 0.0)]]);
    let b = matrix(vec![vec![c(3.0, 0.0), c(2.0, 0.0)], vec![c(-1.0, 0.0), c(0.0, 0.0)]]);
    let cm = matrix(vec![vec![c(6.0, 0.0), c(5.0, 0.0)], vec![c(3.0, 0.0), c(2.0, 0.0)]]);

    let left = a.tensor_product(&b).tensor_product(&cm);
    let right = a.tensor_product(&b.tensor_product(&cm));
    assert!(left.fuzzy_equals(&right));

    let pre = a.adjoint().tensor_product(&b.adjoint());
    let post = a.tensor_product(&b).adjoint();
    assert!(pre.fuzzy_equals(&post));

    let av = vector(vec![c(1.0, 3.0), c(3.0, 0.0)]);
    let bv = vector(vec![c(2.0, -2.0), c(1.0, 0.0)]);
    let pre = a.tensor_product(&b).mul_vector(&av.tensor_product(&bv)).unwrap();
    let post = a.mul_vector(&av).unwrap().tensor_product(&b.mul_vector(&bv).unwrap());
    assert!(pre.fuzzy_equals(&post));
}

#[test]
fn kronecker_layout_of_blocks() {
    let a = matrix(vec![vec![c(1.0, 0.0), c(2.0, 0.0)], vec![c(3.0, 0.0), c(4.0, 0.0)]]);
    let b = matrix(vec![vec![c(0.0, 1.0), c(5.0, 0.0)]]);
    let t = a.tensor_product(&b);
    assert_eq!(t.dim(), (2, 4));
    assert_eq!(t.get(0, 0), c(0.0, 1.0));
    assert_eq!(t.get(0, 3), c(10.0, 0.0));
    assert_eq!(t.get(1, 1), c(15.0, 0.0));
    assert_eq!(t.get(1, 2), c(0.0, 4.0));
}

#[test]
fn transpose_adjoint_and_predicates() {
    let a = matrix(vec![vec![c(1.0, 1.0), c(2.0, 0.0), c(3.0, 0.0)], vec![c(4.0, 0.0), c(5.0, -2.0), c(6.0, 0.0)]]);
    let t = a.transpose();
    assert_eq!(t.dim(), (3, 2));
    assert_eq!(t.get(2, 1), c(6.0, 0.0));
    assert_eq!(t.get(0, 0), c(1.0, 1.0));
    let adj = a.adjoint();
    assert_eq!(adj.get(1, 1), c(5.0, 2.0));
    assert!(!a.is_square());
    let h = matrix(vec![vec![c(7.0, 0.0), c(6.0, 5.0)], vec![c(6.0, -5.0), c(-3.0, 0.0)]]);
    assert!(h.is_hermitian());
    assert!(!h.is_unitary());
    let x = matrix(vec![vec![c(0.0, 0.0), c(1.0, 0.0)], vec![c(1.0, 0.0), c(0.0, 0.0)]]);
    assert!(x.is_unitary());
    assert!(Matrix::<C64>::eye(3).is_identity());
    assert!(!x.is_identity());
    assert!(a.mul(&a).is_err());
    assert!(a.add(&t).is_err());
    assert!(Matrix::from_rows(vec![vector(vec![c(1.0, 0.0)]), vector(vec![])]).is_err());
}

#[test]
fn vector_test_ops() {
    let a = c(1.0, 2.0);
    let b = c(-2.0, -4.0);
    let sum = a.plus(b);
    let va = vector(vec![a; 4]);
    let vb = vector(vec![b; 4]);
    let vc = vector(vec![sum; 4]);
    assert_eq!(vb.add(&va).unwrap(), vc);
    assert_eq!(va.neg(), vc);
    assert_eq!(va.scale(c(-2.0, 0.0)), vb);
}

#[test]
fn vector_test_inner_product() {
    let a = vector(vec![c(1.0, -1.0), c(3.0, 0.0)]);
    assert!(a.dot(&a).unwrap().r > 0.0);

    let b = vector(vec![c(0.0, 0.0), c(0.0, 0.0)]);
    assert_eq!(b.dot(&b).unwrap(), C64::zero());

    let a = vector(vec![c(1.0, 2.0), c(-2.0, -3.0)]);
    let b = vector(vec![c(1.0, -2.0), c(2.0, 3.0)]);
    let cv = vector(vec![c(2.0, 3.0), c(3.0, -2.0)]);

    assert!(a.dot(&b).unwrap() == b.dot(&a).unwrap().conjugate());
    let b_c = b.add(&cv).unwrap();
    assert!(a.dot(&b_c).unwrap() == a.dot(&b).unwrap().plus(a.dot(&cv).unwrap()));

    let a_dot_b = a.dot(&b).unwrap();
    let b2 = b.scale(c(2.0, 1.0));
    assert_eq!(a.dot(&b2).unwrap(), a_dot_b.times(c(2.0, 1.0)));

    let a_dot_c = a.dot(&cv).unwrap();
    let a2 = a.scale(c(2.0, 1.0));
    assert_eq!(a2.dot(&cv).unwrap(), a_dot_c.times(c(2.0, 1.0).conjugate()));
    assert!(a.dot(&vector(vec![c(1.0, 0.0)])).is_err());
}

#[test]
fn vector_test_tensor_product() {
    let a = vector(vec![c(2.0, 0.0), c(3.0, 0.0)]);
    let b = vector(vec![c(4.0, 0.0), c(6.0, 0.0), c(3.0, 0.0)]);
    let ab = vector(vec![c(8.0, 0.0), c(12.0, 0.0), c(6.0, 0.0), c(12.0, 0.0), c(18.0, 0.0), c(9.0, 0.0)]);
    assert!(a.tensor_product(&b).fuzzy_equals(&ab));

    let k = c(2.0, -3.5);
    let a = a.scale(k);
    assert!(a.tensor_product(&b).fuzzy_equals(&ab.scale(k)));
}

#[test]
fn controlled_not_is_cnot() {
    let o = c(0.0, 0.0);
    let l = c(1.0, 0.0);
    let not = matrix(vec![vec![o, l], vec![l, o]]);
    let cnot = matrix(vec![vec![l, o, o, o], vec![o, l, o, o], vec![o, o, o, l], vec![o, o, l, o]]);
    assert_eq!(Matrix::controlled(&not), cnot);
    let y = matrix(vec![vec![o, c(0.0, -1.0)], vec![c(0.0, 1.0), o]]);
    let cy = Matrix::controlled(&y);
    assert_eq!(cy.dim(), (4, 4));
    assert_eq!(cy.get(2, 3), c(0.0, -1.0));
    assert_eq!(cy.get(3, 2), c(0.0, 1.0));
    assert_eq!(cy.get(1, 1), l);
    assert_eq!(cy.get(0, 2), o);
    assert!(cy.is_unitary());
}

#[test]
fn embedding_a_gate_in_a_register() {
    let o = c(0.0, 0.0);
    let l = c(1.0, 0.0);
    let not = matrix(vec![vec![o, l], vec![l, o]]);
    // NOT on the middle qubit of three: flips bit 1 of each basis index.
    let full = Matrix::embed(&not, 3, 1, 2);
    assert_eq!(full.dim(), (8, 8));
    for col in 0..8 {
        for row in 0..8 {
            let expected = if row == col ^ 2 { l } else { o };
            assert_eq!(full.get(row, col), expected);
        }
    }
    let whole = Matrix::embed(&not, 1, 0, 1);
    assert_eq!(whole, not);
}

#[test]
fn gather_and_zero_out_follow_the_index_list() {
    let v = vector(vec![c(1.0, 0.0), c(2.0, 0.0), c(3.0, 1.0), c(4.0, 0.0)]);
    assert_eq!(v.gather(&vec![2, 3]), vector(vec![c(3.0, 1.0), c(4.0, 0.0)]));
    assert_eq!(v.gather(&vec![]), vector(vec![]));
    let mut w = v.clone();
    w.zero_out(&vec![0, 2]);
    assert_eq!(w, vector(vec![c(0.0, 0.0), c(2.0, 0.0), c(0.0, 0.0), c(4.0, 0.0)]));
}

#[test]
fn entries_of_products_and_adjoints() {
    let a = matrix(vec![vec![c(1.0, 1.0), c(0.0, 2.0)], vec![c(3.0, 0.0), c(1.0, -1.0)]]);
    let v = vector(vec![c(1.0, 0.0), c(0.0, 1.0)]);
    // Plain product, no conjugation: (1+i)*1 + 2i*i = -1+i ; 3*1 + (1-i)*i = 4+i.
    assert_eq!(a.mul_vector(&v).unwrap(), vector(vec![c(-1.0, 1.0), c(4.0, 1.0)]));
    let adj = a.adjoint();
    assert_eq!(adj.get(0, 1), c(3.0, 0.0));
    assert_eq!(adj.get(1, 0), c(0.0, -2.0));
    assert_eq!(a.clone().conjugate().get(1, 1), c(1.0, 1.0));
    assert_eq!(Matrix::<C64>::zeroes(2, 3).get(1, 2), c(0.0, 0.0));
    assert_eq!(Matrix::<C64>::eye(3).get(2, 2), c(1.0, 0.0));
    assert!(vector(vec![c(1.0, 0.0)]).fuzzy_equals(&vector(vec![c(1.0, 1e-17)])));
    assert!(!vector(vec![c(1.0, 0.0)]).fuzzy_equals(&vector(vec![c(1.0, 0.0), c(5.0, 0.0)])));
}
