//! Gates as expressions: the standard gates, and the gates built from them by
//! tensor product, matrix product and inversion. Their matrices are formed
//! outside the library; here a gate is known by its shape.
use vstd::prelude::*;

verus! {

/// A gate expression. `Concat(a, b)` is the matrix product `a * b`, and
/// `Inverse(a)` the adjoint of `a`.
#[derive(Debug)]
pub enum GateExpr {
    Hadamard,
    Not,
    Cnot,
    /// `diag(1, e^(i theta))`, with the angle as decimal text.
    PhaseShift(String),
    /// The identity of the given dimension.
    Identity(usize),
    Tensor(Box<GateExpr>, Box<GateExpr>),
    Concat(Box<GateExpr>, Box<GateExpr>),
    Inverse(Box<GateExpr>),
}

impl GateExpr {
    /// Number of rows (and of columns) of its matrix.
    pub open spec fn spec_dim(&self) -> nat
        decreases self,
    {
        match self {
            GateExpr::Hadamard | GateExpr::Not | GateExpr::PhaseShift(_) => 2,
            GateExpr::Cnot => 4,
            GateExpr::Identity(n) => *n as nat,
            GateExpr::Tensor(a, b) => a.spec_dim() * b.spec_dim(),
            GateExpr::Concat(a, _) => a.spec_dim(),
            GateExpr::Inverse(a) => a.spec_dim(),
        }
    }

    /// Every matrix product in the expression multiplies gates of equal dimension.
    pub open spec fn well_formed(&self) -> bool
        decreases self,
    {
        match self {
            GateExpr::Tensor(a, b) => a.well_formed() && b.well_formed(),
            GateExpr::Concat(a, b) => a.well_formed() && b.well_formed() && a.spec_dim() == b.spec_dim(),
            GateExpr::Inverse(a) => a.well_formed(),
            _ => true,
        }
    }

    /// A copy of the expression.
    pub fn copy(&self) -> (r: GateExpr)
        ensures
            r == *self,
        decreases self,
    {
        match self {
            GateExpr::Hadamard => GateExpr::Hadamard,
            GateExpr::Not => GateExpr::Not,
            GateExpr::Cnot => GateExpr::Cnot,
            GateExpr::PhaseShift(angle) => GateExpr::PhaseShift(angle.clone()),
            GateExpr::Identity(n) => GateExpr::Identity(*n),
            GateExpr::Tensor(a, b) => GateExpr::Tensor(Box::new(a.copy()), Box::new(b.copy())),
            GateExpr::Concat(a, b) => GateExpr::Concat(Box::new(a.copy()), Box::new(b.copy())),
            GateExpr::Inverse(a) => GateExpr::Inverse(Box::new(a.copy())),
        }
    }
}

/// Gates that have a family of standard members.
pub trait GateBase {
    type Output;
}

/// Gates with a NOT (Pauli-X) member.
pub trait NOTGate: GateBase {
    fn not() -> Self::Output;
}

/// Gates with a controlled-NOT member.
pub trait CNOTGate: GateBase {
    fn cnot() -> Self::Output;
}

/// Gates with a Hadamard member.
pub trait HadamardGate: GateBase {
    fn h() -> Self::Output;
}

impl GateBase for GateExpr {
    type Output = GateExpr;
}

impl NOTGate for GateExpr {
    fn not() -> GateExpr {
        GateExpr::Not
    }
}

impl CNOTGate for GateExpr {
    fn cnot() -> GateExpr {
        GateExpr::Cnot
    }
}

impl HadamardGate for GateExpr {
    fn h() -> GateExpr {
        GateExpr::Hadamard
    }
}

} // verus!
