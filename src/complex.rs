//! The scalar field that vectors and matrices are built over. The library
//! fixes the operations it needs and names their results with spec functions;
//! an implementation supplies the arithmetic (for the simulator,
//! double-precision complex numbers).
use vstd::prelude::*;

verus! {

/// A complex scalar: addition, subtraction, multiplication, negation,
/// conjugation, and equality up to rounding error. Each operation returns
/// the value that its spec function names.
pub trait Complex: Sized + Copy {
    spec fn spec_zero() -> Self;

    spec fn spec_one() -> Self;

    spec fn spec_plus(self, rhs: Self) -> Self;

    spec fn spec_minus(self, rhs: Self) -> Self;

    spec fn spec_times(self, rhs: Self) -> Self;

    spec fn spec_negate(self) -> Self;

    spec fn spec_conjugate(self) -> Self;

    spec fn spec_fuzzy_equals(self, rhs: Self) -> bool;

    fn zero() -> (r: Self)
        ensures
            r == Self::spec_zero(),
    ;

    fn one() -> (r: Self)
        ensures
            r == Self::spec_one(),
    ;

    fn plus(self, rhs: Self) -> (r: Self)
        ensures
            r == self.spec_plus(rhs),
    ;

    fn minus(self, rhs: Self) -> (r: Self)
        ensures
            r == self.spec_minus(rhs),
    ;

    fn times(self, rhs: Self) -> (r: Self)
        ensures
            r == self.spec_times(rhs),
    ;

    fn negate(self) -> (r: Self)
        ensures
            r == self.spec_negate(),
    ;

    fn conjugate(self) -> (r: Self)
        ensures
            r == self.spec_conjugate(),
    ;

    fn fuzzy_equals(self, rhs: Self) -> (r: bool)
        ensures
            r == self.spec_fuzzy_equals(rhs),
    ;
}

} // verus!
