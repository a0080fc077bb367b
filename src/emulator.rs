//! Interpreter of the circuit language. A program is planned from its tokens
//! into a list of actions on quantum states: which states to create, which
//! gate to apply to which qubits, and which qubits to measure. Registers and
//! their sub-registers name qubit ranges of the states; operators name gate
//! expressions. Running the actions is left to the simulator.
use vstd::prelude::*;
use vstd::arithmetic::power2::{pow2, lemma2_to64, lemma_pow2_strictly_increases};
use crate::lexer::{Token, TokenType, PrimitiveGate};
use crate::gates::GateExpr;
use crate::qubits::num_qubits_to_size;

verus! {

/// What went wrong in a program.
#[derive(Clone, Copy, Debug, PartialEq, Eq, Structural)]
pub enum ErrorKind {
    ExpectedIdentifier,
    MissingIdentifier,
    UnknownRegister,
    ExpectedOperator,
    MissingOperator,
    UnknownOperator,
    QubitCountOutOfRange,
    MissingQubitCount,
    OffsetOutOfBounds,
    ExpectedOffset,
    MissingOffset,
    SelectCountOutOfBounds,
    ExpectedSelectCount,
    MissingSelectCount,
    DimensionMismatch,
    ProductMismatch,
    DimensionTooLarge,
    ExpectedMacro,
    MissingDefinition,
    ExpectedNewLine,
}

/// An error of a program, with the index of the offending token when there is one.
#[derive(Clone, Copy, Debug, PartialEq, Eq, Structural)]
pub struct RuntimeError {
    pub token: Option<usize>,
    pub kind: ErrorKind,
}

impl RuntimeError {
    pub fn new(token: Option<usize>, kind: ErrorKind) -> (r: RuntimeError)
        ensures
            r == (RuntimeError { token, kind }),
    {
        RuntimeError { token, kind }
    }

    pub fn message(&self) -> (m: &'static str)
        ensures
            m == match self.kind {
                ErrorKind::ExpectedIdentifier => "Expected IDENTIFIER token, found",
                ErrorKind::MissingIdentifier => "Missing name argument (IDENTIFIER) for the",
                ErrorKind::UnknownRegister => "This register does not exist at this point,",
                ErrorKind::ExpectedOperator => "Expected operator identifier OR gate primitive, found",
                ErrorKind::MissingOperator => "Missing operator argument (IDENTIFIER | PRIMITIVE_GATE) for the",
                ErrorKind::UnknownOperator => "Operator does not exist at this point in the program, for",
                ErrorKind::QubitCountOutOfRange => "Expected NUMBER within 1-8 (inclusive) for register qubit count, found",
                ErrorKind::MissingQubitCount => "Missing register qubit count argument (NUMBER) for the",
                ErrorKind::OffsetOutOfBounds => "Offset outside of (sub)register bounds, for",
                ErrorKind::ExpectedOffset => "Expected offset argument (NUMBER), found",
                ErrorKind::MissingOffset => "Missing offset argument (NUMBER) for the",
                ErrorKind::SelectCountOutOfBounds => "NUMQUBITS must fit in the (sub)register after the offset, for",
                ErrorKind::ExpectedSelectCount => "Expected NUMQUBITS argument (NUMBER), found",
                ErrorKind::MissingSelectCount => "Missing NUMQUBITS argument (NUMBER) for the",
                ErrorKind::DimensionMismatch => "Provided gate and register dimensions do not match, for the",
                ErrorKind::ProductMismatch => "Matrix multiplication requires first argument's column count matches second's row count. For",
                ErrorKind::DimensionTooLarge => "Operator dimension too large, for",
                ErrorKind::ExpectedMacro => "Expected an operator macro (TENSOR, CONCAT, INVERSE), instead found",
                ErrorKind::MissingDefinition => "Assumed operator macro declaration, found no definition. For",
                ErrorKind::ExpectedNewLine => "Expected new line token",
            },
    {
        match self.kind {
            ErrorKind::ExpectedIdentifier => "Expected IDENTIFIER token, found",
            ErrorKind::MissingIdentifier => "Missing name argument (IDENTIFIER) for the",
            ErrorKind::UnknownRegister => "This register does not exist at this point,",
            ErrorKind::ExpectedOperator => "Expected operator identifier OR gate primitive, found",
            ErrorKind::MissingOperator => "Missing operator argument (IDENTIFIER | PRIMITIVE_GATE) for the",
            ErrorKind::UnknownOperator => "Operator does not exist at this point in the program, for",
            ErrorKind::QubitCountOutOfRange => "Expected NUMBER within 1-8 (inclusive) for register qubit count, found",
            ErrorKind::MissingQubitCount => "Missing register qubit count argument (NUMBER) for the",
            ErrorKind::OffsetOutOfBounds => "Offset outside of (sub)register bounds, for",
            ErrorKind::ExpectedOffset => "Expected offset argument (NUMBER), found",
            ErrorKind::MissingOffset => "Missing offset argument (NUMBER) for the",
            ErrorKind::SelectCountOutOfBounds => "NUMQUBITS must fit in the (sub)register after the offset, for",
            ErrorKind::ExpectedSelectCount => "Expected NUMQUBITS argument (NUMBER), found",
            ErrorKind::MissingSelectCount => "Missing NUMQUBITS argument (NUMBER) for the",
            ErrorKind::DimensionMismatch => "Provided gate and register dimensions do not match, for the",
            ErrorKind::ProductMismatch => "Matrix multiplication requires first argument's column count matches second's row count. For",
            ErrorKind::DimensionTooLarge => "Operator dimension too large, for",
            ErrorKind::ExpectedMacro => "Expected an operator macro (TENSOR, CONCAT, INVERSE), instead found",
            ErrorKind::MissingDefinition => "Assumed operator macro declaration, found no definition. For",
            ErrorKind::ExpectedNewLine => "Expected new line token",
        }
    }
}

/// A named range `[start, end)` of the qubits of state `state`.
pub struct Register {
    pub name: String,
    pub state: usize,
    pub start: usize,
    pub end: usize,
}

/// A named gate expression with its dimension.
pub struct Operator {
    pub name: String,
    pub gate: GateExpr,
    pub dim: usize,
}

/// One step for the simulator.
#[derive(Debug)]
pub enum Action {
    /// Create the next state: `qubits` qubits, all zero.
    Initialize { qubits: usize },
    /// Apply `gate` to qubits `[start, end)` of state `state`.
    Apply { state: usize, start: usize, end: usize, gate: GateExpr },
    /// Measure qubits `[start, end)` of state `state`, leaving the others.
    Measure { state: usize, start: usize, end: usize },
    /// Read out the probabilities of the outcomes of qubits `[start, end)`
    /// of state `state`, without measuring.
    Peek { state: usize, start: usize, end: usize },
}

/// The interpreter's bindings: the qubit count of each state, the registers and
/// the operators, each name bound to its latest entry.
pub struct Env {
    pub states: Vec<usize>,
    pub registers: Vec<Register>,
    pub operators: Vec<Operator>,
}

pub struct EnvView {
    pub states: Seq<usize>,
    pub registers: Seq<Register>,
    pub operators: Seq<Operator>,
}

impl View for Env {
    type V = EnvView;

    open spec fn view(&self) -> EnvView {
        EnvView { states: self.states@, registers: self.registers@, operators: self.operators@ }
    }
}

/// A square matrix of dimension `d` has at most `usize::MAX` entries.
#[verifier::opaque]
pub open spec fn square_fits(d: nat) -> bool {
    d * d <= usize::MAX
}

/// The largest register.
pub const MAX_QUBITS: usize = 8;

impl EnvView {
    /// Every register lies in a state of at most `MAX_QUBITS` qubits, and every
    /// operator knows its dimension.
    pub open spec fn well_formed(&self) -> bool {
        &&& forall|i: int| 0 <= i < self.states.len() ==> 1 <= #[trigger] self.states[i] <= MAX_QUBITS
        &&& forall|i: int| 0 <= i < self.registers.len() ==> {
            let r = #[trigger] self.registers[i];
            r.state < self.states.len() && r.start <= r.end <= self.states[r.state as int]
        }
        &&& forall|i: int| 0 <= i < self.operators.len() ==> {
            let o = #[trigger] self.operators[i];
            o.dim == o.gate.spec_dim() && o.gate.well_formed() && square_fits(o.gate.spec_dim())
        }
    }
}

/// Every action reads a state made before it, within its qubits; every gate
/// fits the qubits it is applied to.
pub open spec fn actions_well_formed(actions: Seq<Action>, first_states: Seq<usize>) -> bool {
    forall|i: int| 0 <= i < actions.len() ==> action_fits(#[trigger] actions[i], states_before(actions, first_states, i))
}

/// The qubit counts of the states made before action `i`.
pub open spec fn states_before(actions: Seq<Action>, first_states: Seq<usize>, i: int) -> Seq<usize>
    decreases i,
{
    if i <= 0 {
        first_states
    } else {
        match actions[i - 1] {
            Action::Initialize { qubits } => states_before(actions, first_states, i - 1).push(qubits),
            _ => states_before(actions, first_states, i - 1),
        }
    }
}

pub open spec fn action_fits(a: Action, states: Seq<usize>) -> bool {
    match a {
        Action::Initialize { qubits } => 1 <= qubits <= MAX_QUBITS,
        Action::Apply { state, start, end, gate } => state < states.len() && start <= end
            <= states[state as int] && gate.well_formed() && gate.spec_dim() == pow2(
            (end - start) as nat,
        ),
        Action::Measure { state, start, end } | Action::Peek { state, start, end } => state < states.len()
            && start <= end <= states[state as int],
    }
}

// ---------------------------------------------------------------------------
// Arguments

pub open spec fn err(token: Option<usize>, kind: ErrorKind) -> RuntimeError {
    RuntimeError { token, kind }
}

/// The name at token `i` of a statement that starts at token `first`.
pub open spec fn spec_identifier(tokens: Seq<Token>, i: int, first: int) -> Result<String, RuntimeError> {
    if i < tokens.len() {
        match tokens[i].ty {
            TokenType::Identifier(name) => Ok(name),
            _ => Err(err(Some(i as usize), ErrorKind::ExpectedIdentifier)),
        }
    } else {
        Err(err(Some(first as usize), ErrorKind::MissingIdentifier))
    }
}

/// The index of the latest register named `name`.
pub open spec fn find_register(registers: Seq<Register>, name: Seq<char>) -> Option<int>
    decreases registers.len(),
{
    if registers.len() == 0 {
        None
    } else if registers.last().name@ == name {
        Some(registers.len() - 1)
    } else {
        find_register(registers.drop_last(), name)
    }
}

/// The index of the latest operator named `name`.
pub open spec fn find_operator(operators: Seq<Operator>, name: Seq<char>) -> Option<int>
    decreases operators.len(),
{
    if operators.len() == 0 {
        None
    } else if operators.last().name@ == name {
        Some(operators.len() - 1)
    } else {
        find_operator(operators.drop_last(), name)
    }
}

/// The index of the register named at token `i`.
pub open spec fn spec_register(tokens: Seq<Token>, i: int, first: int, env: EnvView) -> Result<int, RuntimeError> {
    match spec_identifier(tokens, i, first) {
        Err(e) => Err(e),
        Ok(name) => match find_register(env.registers, name@) {
            Some(k) => Ok(k),
            None => Err(err(Some(i as usize), ErrorKind::UnknownRegister)),
        },
    }
}

pub open spec fn primitive_expr(p: PrimitiveGate) -> GateExpr {
    match p {
        PrimitiveGate::H => GateExpr::Hadamard,
        PrimitiveGate::CNOT => GateExpr::Cnot,
        PrimitiveGate::R(angle) => GateExpr::PhaseShift(angle),
        PrimitiveGate::I(n) => GateExpr::Identity(n),
    }
}

/// Gate named or written at token `i`.
pub open spec fn spec_gate(tokens: Seq<Token>, i: int, first: int, env: EnvView) -> Result<GateExpr, RuntimeError> {
    if i < tokens.len() {
        match tokens[i].ty {
            TokenType::Identifier(name) => match find_operator(env.operators, name@) {
                Some(k) => Ok(env.operators[k].gate),
                None => Err(err(Some(i as usize), ErrorKind::UnknownOperator)),
            },
            TokenType::Gate(p) => if !square_fits(primitive_expr(p).spec_dim()) {
                Err(err(Some(i as usize), ErrorKind::DimensionTooLarge))
            } else {
                Ok(primitive_expr(p))
            },
            _ => Err(err(Some(i as usize), ErrorKind::ExpectedOperator)),
        }
    } else {
        Err(err(Some(first as usize), ErrorKind::MissingOperator))
    }
}

fn identifier_at(tokens: &Vec<Token>, i: usize, first: usize) -> (r: Result<String, RuntimeError>)
    ensures
        r == spec_identifier(tokens@, i as int, first as int),
{
    if i < tokens.len() {
        match &tokens[i].ty {
            TokenType::Identifier(name) => Ok(name.clone()),
            _ => Err(RuntimeError::new(Some(i), ErrorKind::ExpectedIdentifier)),
        }
    } else {
        Err(RuntimeError::new(Some(first), ErrorKind::MissingIdentifier))
    }
}

fn lookup_register(registers: &Vec<Register>, name: &String) -> (r: Option<usize>)
    ensures
        r is Some <==> find_register(registers@, name@) is Some,
        r is Some ==> find_register(registers@, name@) == Some(r->0 as int) && r->0 < registers.len(),
{
    let mut found: Option<usize> = None;
    let mut j: usize = 0;
    while j < registers.len()
        invariant
            j <= registers.len(),
            found is Some <==> find_register(registers@.take(j as int), name@) is Some,
            found is Some ==> find_register(registers@.take(j as int), name@) == Some(found->0 as int) && found->0 < j,
        decreases registers.len() - j,
    {
        assert(registers@.take(j + 1).drop_last() =~= registers@.take(j as int));
        if registers[j].name == *name {
            found = Some(j);
        }
        j = j + 1;
    }
    assert(registers@.take(j as int) =~= registers@);
    found
}

fn lookup_operator(operators: &Vec<Operator>, name: &String) -> (r: Option<usize>)
    ensures
        r is Some <==> find_operator(operators@, name@) is Some,
        r is Some ==> find_operator(operators@, name@) == Some(r->0 as int) && r->0 < operators.len(),
{
    let mut found: Option<usize> = None;
    let mut j: usize = 0;
    while j < operators.len()
        invariant
            j <= operators.len(),
            found is Some <==> find_operator(operators@.take(j as int), name@) is Some,
            found is Some ==> find_operator(operators@.take(j as int), name@) == Some(found->0 as int) && found->0 < j,
        decreases operators.len() - j,
    {
        assert(operators@.take(j + 1).drop_last() =~= operators@.take(j as int));
        if operators[j].name == *name {
            found = Some(j);
        }
        j = j + 1;
    }
    assert(operators@.take(j as int) =~= operators@);
    found
}

proof fn lemma_find_register_bound(registers: Seq<Register>, name: Seq<char>)
    ensures
        find_register(registers, name) is Some ==> 0 <= find_register(registers, name)->0 < registers.len(),
    decreases registers.len(),
{
    if registers.len() > 0 {
        lemma_find_register_bound(registers.drop_last(), name);
    }
}

proof fn lemma_find_operator_bound(operators: Seq<Operator>, name: Seq<char>)
    ensures
        find_operator(operators, name) is Some ==> 0 <= find_operator(operators, name)->0 < operators.len(),
    decreases operators.len(),
{
    if operators.len() > 0 {
        lemma_find_operator_bound(operators.drop_last(), name);
    }
}

fn register_at(tokens: &Vec<Token>, i: usize, first: usize, env: &Env) -> (r: Result<usize, RuntimeError>)
    ensures
        match spec_register(tokens@, i as int, first as int, env@) {
            Ok(k) => r == Ok::<usize, RuntimeError>(k as usize) && 0 <= k < env.registers.len(),
            Err(e) => r == Err::<usize, RuntimeError>(e),
        },
{
    let name = identifier_at(tokens, i, first)?;
    proof {
        lemma_find_register_bound(env.registers@, name@);
    }
    match lookup_register(&env.registers, &name) {
        Some(k) => Ok(k),
        None => Err(RuntimeError::new(Some(i), ErrorKind::UnknownRegister)),
    }
}

fn primitive_gate(p: &PrimitiveGate) -> (g: GateExpr)
    ensures
        g == primitive_expr(*p),
{
    match p {
        PrimitiveGate::H => GateExpr::Hadamard,
        PrimitiveGate::CNOT => GateExpr::Cnot,
        PrimitiveGate::R(angle) => GateExpr::PhaseShift(angle.clone()),
        PrimitiveGate::I(n) => GateExpr::Identity(*n),
    }
}

/// Gate at token `i`, with its dimension.
fn gate_at(tokens: &Vec<Token>, i: usize, first: usize, env: &Env) -> (r: Result<(GateExpr, usize), RuntimeError>)
    requires
        env@.well_formed(),
    ensures
        match spec_gate(tokens@, i as int, first as int, env@) {
            Ok(g) => r == Ok::<(GateExpr, usize), RuntimeError>((g, g.spec_dim() as usize)) && g.spec_dim()
                <= usize::MAX && square_fits(g.spec_dim()) && g.well_formed(),
            Err(e) => r == Err::<(GateExpr, usize), RuntimeError>(e),
        },
{
    proof {
        reveal(square_fits);
    }
    if i < tokens.len() {
        match &tokens[i].ty {
            TokenType::Identifier(name) => {
                proof {
                    lemma_find_operator_bound(env.operators@, name@);
                }
                match lookup_operator(&env.operators, name) {
                    Some(k) => {
                        let ghost o = env@.operators[k as int];
                        assert(o.dim == o.gate.spec_dim() && o.gate.well_formed() && square_fits(o.gate.spec_dim()));
                        proof {
                            lemma_square_grows(o.gate.spec_dim() as int);
                        }
                        let g = env.operators[k].gate.copy();
                        Ok((g, env.operators[k].dim))
                    },
                    None => Err(RuntimeError::new(Some(i), ErrorKind::UnknownOperator)),
                }
            },
            TokenType::Gate(p) => {
                let g = primitive_gate(p);
                assert(tokens@[i as int].ty == TokenType::Gate(*p));
                proof {
                    lemma_square_grows(g.spec_dim() as int);
                }
                let d: usize = match p {
                    PrimitiveGate::H => 2,
                    PrimitiveGate::CNOT => 4,
                    PrimitiveGate::R(_) => 2,
                    PrimitiveGate::I(n) => *n,
                };
                match d.checked_mul(d) {
                    Some(_) => Ok((g, d)),
                    None => Err(RuntimeError::new(Some(i), ErrorKind::DimensionTooLarge)),
                }
            },
            _ => Err(RuntimeError::new(Some(i), ErrorKind::ExpectedOperator)),
        }
    } else {
        Err(RuntimeError::new(Some(first), ErrorKind::MissingOperator))
    }
}


// ---------------------------------------------------------------------------
// Statements

/// A qubit count for a new register, at token `i`.
pub open spec fn qubit_count_at(tokens: Seq<Token>, i: int) -> Option<usize> {
    match tokens[i].ty {
        TokenType::Number(n) => if 1 <= n <= MAX_QUBITS {
            Some(n)
        } else {
            None
        },
        _ => None,
    }
}

pub open spec fn with_register(env: EnvView, r: Register) -> EnvView {
    EnvView { states: env.states, registers: env.registers.push(r), operators: env.operators }
}

pub open spec fn with_operator(env: EnvView, name: String, gate: GateExpr) -> EnvView {
    EnvView {
        states: env.states,
        registers: env.registers,
        operators: env.operators.push(Operator { name, gate, dim: gate.spec_dim() as usize }),
    }
}

/// `INITIALIZE name count`: a new state of `count` qubits, all zero, and a
/// register over all of it.
pub open spec fn spec_initialize(tokens: Seq<Token>, pos: int, env: EnvView) -> Result<(int, EnvView, Option<Action>), RuntimeError> {
    let p = pos + 1;
    match spec_identifier(tokens, p, pos) {
        Err(e) => Err(e),
        Ok(name) => if p + 1 >= tokens.len() {
            Err(err(Some(pos as usize), ErrorKind::MissingQubitCount))
        } else {
            match qubit_count_at(tokens, p + 1) {
                None => Err(err(Some((p + 1) as usize), ErrorKind::QubitCountOutOfRange)),
                Some(n) => Ok((
                    p + 2,
                    EnvView {
                        states: env.states.push(n),
                        registers: env.registers.push(Register { name, state: env.states.len() as usize, start: 0, end: n }),
                        operators: env.operators,
                    },
                    Some(Action::Initialize { qubits: n }),
                )),
            }
        },
    }
}

/// `SELECT name parent offset count`: a register over qubits
/// `[offset, offset + count)` of register `parent`.
pub open spec fn spec_select(tokens: Seq<Token>, pos: int, env: EnvView) -> Result<(int, EnvView, Option<Action>), RuntimeError> {
    let p = pos + 1;
    match spec_identifier(tokens, p, pos) {
        Err(e) => Err(e),
        Ok(name) => match spec_register(tokens, p + 1, pos, env) {
            Err(e) => Err(e),
            Ok(k) => {
                let parent = env.registers[k];
                let len = parent.end - parent.start;
                if p + 2 >= tokens.len() {
                    Err(err(Some(pos as usize), ErrorKind::MissingOffset))
                } else {
                    match tokens[p + 2].ty {
                        TokenType::Number(offset) => if offset >= len {
                            Err(err(Some((p + 2) as usize), ErrorKind::OffsetOutOfBounds))
                        } else if p + 3 >= tokens.len() {
                            Err(err(Some(pos as usize), ErrorKind::MissingSelectCount))
                        } else {
                            match tokens[p + 3].ty {
                                TokenType::Number(count) => if count < 1 || count > len - offset {
                                    Err(err(Some((p + 3) as usize), ErrorKind::SelectCountOutOfBounds))
                                } else {
                                    Ok((
                                        p + 4,
                                        with_register(env, Register {
                                            name,
                                            state: parent.state,
                                            start: (parent.start + offset) as usize,
                                            end: (parent.start + offset + count) as usize,
                                        }),
                                        None,
                                    ))
                                },
                                _ => Err(err(Some((p + 3) as usize), ErrorKind::ExpectedSelectCount)),
                            }
                        },
                        _ => Err(err(Some((p + 2) as usize), ErrorKind::ExpectedOffset)),
                    }
                }
            },
        },
    }
}

/// `APPLY gate register`: a gate must have dimension `2^n` for a register of `n` qubits.
pub open spec fn spec_apply(tokens: Seq<Token>, pos: int, env: EnvView) -> Result<(int, EnvView, Option<Action>), RuntimeError> {
    let p = pos + 1;
    match spec_gate(tokens, p, pos, env) {
        Err(e) => Err(e),
        Ok(g) => match spec_register(tokens, p + 1, pos, env) {
            Err(e) => Err(e),
            Ok(k) => {
                let r = env.registers[k];
                if g.spec_dim() != pow2((r.end - r.start) as nat) {
                    Err(err(Some(pos as usize), ErrorKind::DimensionMismatch))
                } else {
                    Ok((p + 2, env, Some(Action::Apply { state: r.state, start: r.start, end: r.end, gate: g })))
                }
            },
        },
    }
}

/// `name TENSOR a b`, `name CONCAT a b` or `name INVERSE a`: binds `name` to
/// the tensor product, the matrix product or the adjoint.
pub open spec fn spec_define(tokens: Seq<Token>, pos: int, env: EnvView, name: String) -> Result<(int, EnvView, Option<Action>), RuntimeError> {
    let p = pos + 1;
    if p >= tokens.len() {
        Err(err(Some(pos as usize), ErrorKind::MissingDefinition))
    } else {
        match tokens[p].ty {
            TokenType::Tensor => match spec_gate(tokens, p + 1, pos, env) {
                Err(e) => Err(e),
                Ok(a) => match spec_gate(tokens, p + 2, pos, env) {
                    Err(e) => Err(e),
                    Ok(b) => if !square_fits(a.spec_dim() * b.spec_dim()) {
                        Err(err(Some(p as usize), ErrorKind::DimensionTooLarge))
                    } else {
                        Ok((p + 3, with_operator(env, name, GateExpr::Tensor(Box::new(a), Box::new(b))), None))
                    },
                },
            },
            TokenType::Concat => match spec_gate(tokens, p + 1, pos, env) {
                Err(e) => Err(e),
                Ok(a) => match spec_gate(tokens, p + 2, pos, env) {
                    Err(e) => Err(e),
                    Ok(b) => if a.spec_dim() != b.spec_dim() {
                        Err(err(Some(p as usize), ErrorKind::ProductMismatch))
                    } else {
                        Ok((p + 3, with_operator(env, name, GateExpr::Concat(Box::new(a), Box::new(b))), None))
                    },
                },
            },
            TokenType::Inverse => match spec_gate(tokens, p + 1, pos, env) {
                Err(e) => Err(e),
                Ok(a) => Ok((p + 2, with_operator(env, name, GateExpr::Inverse(Box::new(a))), None)),
            },
            _ => Err(err(Some(p as usize), ErrorKind::ExpectedMacro)),
        }
    }
}

/// `MEASURE register` measures the register's qubits; `MEASURE MEASURE
/// register` reads out their outcome probabilities instead.
pub open spec fn spec_measure(tokens: Seq<Token>, pos: int, env: EnvView) -> Result<(int, EnvView, Option<Action>), RuntimeError> {
    let p = pos + 1;
    let peek = p < tokens.len() && tokens[p].ty is Measure;
    let q = if peek { p + 1 } else { p };
    match spec_register(tokens, q, pos, env) {
        Err(e) => Err(e),
        Ok(k) => {
            let r = env.registers[k];
            let action = if peek {
                Action::Peek { state: r.state, start: r.start, end: r.end }
            } else {
                Action::Measure { state: r.state, start: r.start, end: r.end }
            };
            Ok((q + 1, env, Some(action)))
        },
    }
}

/// The statement that starts at token `pos`: the index of the token after its
/// arguments, the bindings after it, and its action. A statement that starts
/// with no keyword or name is its first token alone.
pub open spec fn spec_statement(tokens: Seq<Token>, pos: int, env: EnvView) -> Result<(int, EnvView, Option<Action>), RuntimeError> {
    match tokens[pos].ty {
        TokenType::Initialize => spec_initialize(tokens, pos, env),
        TokenType::Select => spec_select(tokens, pos, env),
        TokenType::Apply => spec_apply(tokens, pos, env),
        TokenType::Identifier(name) => spec_define(tokens, pos, env, name),
        TokenType::Measure => spec_measure(tokens, pos, env),
        _ => Ok((pos + 1, env, None)),
    }
}

/// The actions of the statements from token `pos` on. Each statement must be
/// followed by a `NewLine` token; planning stops at the first error.
pub open spec fn spec_run(tokens: Seq<Token>, pos: int, env: EnvView) -> Result<Seq<Action>, RuntimeError>
    decreases tokens.len() - pos,
{
    if pos < 0 || pos >= tokens.len() {
        Ok(seq![])
    } else {
        match spec_statement(tokens, pos, env) {
            Err(e) => Err(e),
            Ok((next, after, action)) => if next >= tokens.len() {
                Err(err(None, ErrorKind::ExpectedNewLine))
            } else if !(tokens[next].ty is NewLine) {
                Err(err(Some(next as usize), ErrorKind::ExpectedNewLine))
            } else {
                match spec_run(tokens, next + 1, after) {
                    Err(e) => Err(e),
                    Ok(rest) => Ok(
                        match action {
                            Some(a) => seq![a] + rest,
                            None => rest,
                        },
                    ),
                }
            },
        }
    }
}

pub open spec fn empty_env() -> EnvView {
    EnvView { states: seq![], registers: seq![], operators: seq![] }
}


proof fn lemma_square_grows(x: int)
    requires
        x >= 0,
    ensures
        x <= x * x || x == 0,
{
    if x >= 1 {
        vstd::arithmetic::mul::lemma_mul_inequality(1, x, x);
    }
}

proof fn lemma_pow2_register(width: nat)
    requires
        width <= MAX_QUBITS,
    ensures
        pow2(width) <= 256,
{
    lemma2_to64();
    if width < 8 {
        lemma_pow2_strictly_increases(width, 8);
    }
}

fn initialize(tokens: &Vec<Token>, pos: usize, env: &mut Env) -> (r: Result<(usize, Option<Action>), RuntimeError>)
    requires
        pos < tokens.len(),
        old(env)@.well_formed(),
    ensures
        match spec_initialize(tokens@, pos as int, old(env)@) {
            Ok((next, after, action)) => {
                &&& r == Ok::<(usize, Option<Action>), RuntimeError>((next as usize, action))
                &&& final(env)@ == after
                &&& after.well_formed()
                &&& pos < next <= tokens.len()
                &&& after.states == match action {
                    Some(Action::Initialize { qubits }) => old(env)@.states.push(qubits),
                    _ => old(env)@.states,
                }
                &&& (action matches Some(a) ==> action_fits(a, old(env)@.states))
            },
            Err(e) => r == Err::<(usize, Option<Action>), RuntimeError>(e),
        },
{
    let p = pos + 1;
    let name = match identifier_at(tokens, p, pos) {
        Ok(name) => name,
        Err(e) => return Err(e),
    };
    if p + 1 >= tokens.len() {
        return Err(RuntimeError::new(Some(pos), ErrorKind::MissingQubitCount));
    }
    let n = match &tokens[p + 1].ty {
        TokenType::Number(n) => {
            if 1 <= *n && *n <= MAX_QUBITS {
                *n
            } else {
                return Err(RuntimeError::new(Some(p + 1), ErrorKind::QubitCountOutOfRange));
            }
        },
        _ => return Err(RuntimeError::new(Some(p + 1), ErrorKind::QubitCountOutOfRange)),
    };
    let id = env.states.len();
    env.states.push(n);
    env.registers.push(Register { name, state: id, start: 0, end: n });
    proof {
        let e = env@;
        assert forall|i: int| 0 <= i < e.registers.len() implies {
            let r = #[trigger] e.registers[i];
            r.state < e.states.len() && r.start <= r.end <= e.states[r.state as int]
        } by {
            if i < e.registers.len() - 1 {
                assert(e.registers[i] == old(env)@.registers[i]);
            }
        }
    }
    Ok((p + 2, Some(Action::Initialize { qubits: n })))
}

fn select(tokens: &Vec<Token>, pos: usize, env: &mut Env) -> (r: Result<(usize, Option<Action>), RuntimeError>)
    requires
        pos < tokens.len(),
        old(env)@.well_formed(),
    ensures
        match spec_select(tokens@, pos as int, old(env)@) {
            Ok((next, after, action)) => {
                &&& r == Ok::<(usize, Option<Action>), RuntimeError>((next as usize, action))
                &&& final(env)@ == after
                &&& after.well_formed()
                &&& pos < next <= tokens.len()
                &&& after.states == match action {
                    Some(Action::Initialize { qubits }) => old(env)@.states.push(qubits),
                    _ => old(env)@.states,
                }
                &&& (action matches Some(a) ==> action_fits(a, old(env)@.states))
            },
            Err(e) => r == Err::<(usize, Option<Action>), RuntimeError>(e),
        },
{
    let p = pos + 1;
    let name = match identifier_at(tokens, p, pos) {
        Ok(name) => name,
        Err(e) => return Err(e),
    };
    let k = match register_at(tokens, p + 1, pos, env) {
        Ok(k) => k,
        Err(e) => return Err(e),
    };
    let state = env.registers[k].state;
    let start = env.registers[k].start;
    let end = env.registers[k].end;
    let ghost parent = env@.registers[k as int];
    assert(parent.start <= parent.end <= env@.states[parent.state as int] <= MAX_QUBITS);
    let len = end - start;
    if p + 2 >= tokens.len() {
        return Err(RuntimeError::new(Some(pos), ErrorKind::MissingOffset));
    }
    let offset = match &tokens[p + 2].ty {
        TokenType::Number(offset) => *offset,
        _ => return Err(RuntimeError::new(Some(p + 2), ErrorKind::ExpectedOffset)),
    };
    if offset >= len {
        return Err(RuntimeError::new(Some(p + 2), ErrorKind::OffsetOutOfBounds));
    }
    if p + 3 >= tokens.len() {
        return Err(RuntimeError::new(Some(pos), ErrorKind::MissingSelectCount));
    }
    let count = match &tokens[p + 3].ty {
        TokenType::Number(count) => *count,
        _ => return Err(RuntimeError::new(Some(p + 3), ErrorKind::ExpectedSelectCount)),
    };
    if count < 1 || count > len - offset {
        return Err(RuntimeError::new(Some(p + 3), ErrorKind::SelectCountOutOfBounds));
    }
    env.registers.push(Register { name, state, start: start + offset, end: start + offset + count });
    proof {
        let e = env@;
        assert forall|i: int| 0 <= i < e.registers.len() implies {
            let r = #[trigger] e.registers[i];
            r.state < e.states.len() && r.start <= r.end <= e.states[r.state as int]
        } by {
            if i < e.registers.len() - 1 {
                assert(e.registers[i] == old(env)@.registers[i]);
            }
        }
        assert(e == with_register(old(env)@, Register { name, state, start: (start + offset) as usize, end: (start + offset + count) as usize }));
    }
    Ok((p + 4, None))
}

fn apply(tokens: &Vec<Token>, pos: usize, env: &mut Env) -> (r: Result<(usize, Option<Action>), RuntimeError>)
    requires
        pos < tokens.len(),
        old(env)@.well_formed(),
    ensures
        match spec_apply(tokens@, pos as int, old(env)@) {
            Ok((next, after, action)) => {
                &&& r == Ok::<(usize, Option<Action>), RuntimeError>((next as usize, action))
                &&& final(env)@ == after
                &&& after.well_formed()
                &&& pos < next <= tokens.len()
                &&& after.states == match action {
                    Some(Action::Initialize { qubits }) => old(env)@.states.push(qubits),
                    _ => old(env)@.states,
                }
                &&& (action matches Some(a) ==> action_fits(a, old(env)@.states))
            },
            Err(e) => r == Err::<(usize, Option<Action>), RuntimeError>(e),
        },
{
    let p = pos + 1;
    let (gate, dim) = match gate_at(tokens, p, pos, env) {
        Ok(x) => x,
        Err(e) => return Err(e),
    };
    let k = match register_at(tokens, p + 1, pos, env) {
        Ok(k) => k,
        Err(e) => return Err(e),
    };
    let state = env.registers[k].state;
    let start = env.registers[k].start;
    let end = env.registers[k].end;
    let ghost reg = env@.registers[k as int];
    assert(reg.start <= reg.end <= env@.states[reg.state as int] <= MAX_QUBITS);
    proof {
        lemma_pow2_register((end - start) as nat);
    }
    let size = num_qubits_to_size(end - start);
    if dim != size {
        return Err(RuntimeError::new(Some(pos), ErrorKind::DimensionMismatch));
    }
    Ok((p + 2, Some(Action::Apply { state, start, end, gate })))
}

fn define(tokens: &Vec<Token>, pos: usize, env: &mut Env, name: &String) -> (r: Result<(usize, Option<Action>), RuntimeError>)
    requires
        pos < tokens.len(),
        old(env)@.well_formed(),
    ensures
        match spec_define(tokens@, pos as int, old(env)@, *name) {
            Ok((next, after, action)) => {
                &&& r == Ok::<(usize, Option<Action>), RuntimeError>((next as usize, action))
                &&& final(env)@ == after
                &&& after.well_formed()
                &&& pos < next <= tokens.len()
                &&& after.states == match action {
                    Some(Action::Initialize { qubits }) => old(env)@.states.push(qubits),
                    _ => old(env)@.states,
                }
                &&& (action matches Some(a) ==> action_fits(a, old(env)@.states))
            },
            Err(e) => r == Err::<(usize, Option<Action>), RuntimeError>(e),
        },
{
    proof {
        reveal(square_fits);
    }
    let p = pos + 1;
    if p >= tokens.len() {
        return Err(RuntimeError::new(Some(pos), ErrorKind::MissingDefinition));
    }
    let (gate, dim, next) = match &tokens[p].ty {
        TokenType::Tensor => {
            let (a, da) = match gate_at(tokens, p + 1, pos, env) {
                Ok(x) => x,
                Err(e) => return Err(e),
            };
            let (b, db) = match gate_at(tokens, p + 2, pos, env) {
                Ok(x) => x,
                Err(e) => return Err(e),
            };
            let d = match da.checked_mul(db) {
                Some(d) => d,
                None => {
                    proof {
                        lemma_square_grows(da * db);
                    }
                    return Err(RuntimeError::new(Some(p), ErrorKind::DimensionTooLarge));
                },
            };
            if d.checked_mul(d).is_none() {
                return Err(RuntimeError::new(Some(p), ErrorKind::DimensionTooLarge));
            }
            (GateExpr::Tensor(Box::new(a), Box::new(b)), d, p + 3)
        },
        TokenType::Concat => {
            let (a, da) = match gate_at(tokens, p + 1, pos, env) {
                Ok(x) => x,
                Err(e) => return Err(e),
            };
            let (b, db) = match gate_at(tokens, p + 2, pos, env) {
                Ok(x) => x,
                Err(e) => return Err(e),
            };
            if da != db {
                return Err(RuntimeError::new(Some(p), ErrorKind::ProductMismatch));
            }
            (GateExpr::Concat(Box::new(a), Box::new(b)), da, p + 3)
        },
        TokenType::Inverse => {
            let (a, da) = match gate_at(tokens, p + 1, pos, env) {
                Ok(x) => x,
                Err(e) => return Err(e),
            };
            (GateExpr::Inverse(Box::new(a)), da, p + 2)
        },
        _ => return Err(RuntimeError::new(Some(p), ErrorKind::ExpectedMacro)),
    };
    let ghost g = gate;
    assert(dim == g.spec_dim() && g.well_formed() && square_fits(g.spec_dim()));
    env.operators.push(Operator { name: name.clone(), gate, dim });
    proof {
        let e = env@;
        assert forall|i: int| 0 <= i < e.operators.len() implies {
            let o = #[trigger] e.operators[i];
            o.dim == o.gate.spec_dim() && o.gate.well_formed() && square_fits(o.gate.spec_dim())
        } by {
            if i < e.operators.len() - 1 {
                assert(e.operators[i] == old(env)@.operators[i]);
            }
        }
        assert(e == with_operator(old(env)@, *name, g));
    }
    Ok((next, None))
}

fn measure(tokens: &Vec<Token>, pos: usize, env: &mut Env) -> (r: Result<(usize, Option<Action>), RuntimeError>)
    requires
        pos < tokens.len(),
        old(env)@.well_formed(),
    ensures
        match spec_measure(tokens@, pos as int, old(env)@) {
            Ok((next, after, action)) => {
                &&& r == Ok::<(usize, Option<Action>), RuntimeError>((next as usize, action))
                &&& final(env)@ == after
                &&& after.well_formed()
                &&& pos < next <= tokens.len()
                &&& after.states == match action {
                    Some(Action::Initialize { qubits }) => old(env)@.states.push(qubits),
                    _ => old(env)@.states,
                }
                &&& (action matches Some(a) ==> action_fits(a, old(env)@.states))
            },
            Err(e) => r == Err::<(usize, Option<Action>), RuntimeError>(e),
        },
{
    let p = pos + 1;
    let peek = p < tokens.len() && matches!(tokens[p].ty, TokenType::Measure);
    let q = if peek {
        p + 1
    } else {
        p
    };
    let k = match register_at(tokens, q, pos, env) {
        Ok(k) => k,
        Err(e) => return Err(e),
    };
    let ghost reg = env@.registers[k as int];
    assert(reg.start <= reg.end <= env@.states[reg.state as int]);
    let state = env.registers[k].state;
    let start = env.registers[k].start;
    let end = env.registers[k].end;
    if peek {
        Ok((q + 1, Some(Action::Peek { state, start, end })))
    } else {
        Ok((q + 1, Some(Action::Measure { state, start, end })))
    }
}

fn statement(tokens: &Vec<Token>, pos: usize, env: &mut Env) -> (r: Result<(usize, Option<Action>), RuntimeError>)
    requires
        pos < tokens.len(),
        old(env)@.well_formed(),
    ensures
        match spec_statement(tokens@, pos as int, old(env)@) {
            Ok((next, after, action)) => {
                &&& r == Ok::<(usize, Option<Action>), RuntimeError>((next as usize, action))
                &&& final(env)@ == after
                &&& after.well_formed()
                &&& pos < next <= tokens.len()
                &&& after.states == match action {
                    Some(Action::Initialize { qubits }) => old(env)@.states.push(qubits),
                    _ => old(env)@.states,
                }
                &&& (action matches Some(a) ==> action_fits(a, old(env)@.states))
            },
            Err(e) => r == Err::<(usize, Option<Action>), RuntimeError>(e),
        },
{
    match &tokens[pos].ty {
        TokenType::Initialize => initialize(tokens, pos, env),
        TokenType::Select => select(tokens, pos, env),
        TokenType::Apply => apply(tokens, pos, env),
        TokenType::Identifier(name) => define(tokens, pos, env, name),
        TokenType::Measure => measure(tokens, pos, env),
        _ => Ok((pos + 1, None)),
    }
}


proof fn lemma_states_before_push(actions: Seq<Action>, a: Action, first: Seq<usize>, i: int)
    requires
        0 <= i <= actions.len(),
    ensures
        states_before(actions.push(a), first, i) == states_before(actions, first, i),
    decreases i,
{
    if i > 0 {
        lemma_states_before_push(actions, a, first, i - 1);
        assert(actions.push(a)[i - 1] == actions[i - 1]);
    }
}

/// Plans a program: the actions of its statements, in order, or the first
/// error. Every action of a planned program reads a state made before it,
/// within that state's qubits, and every gate fits the qubits it acts on.
pub fn plan(tokens: &Vec<Token>) -> (r: Result<Vec<Action>, RuntimeError>)
    ensures
        match spec_run(tokens@, 0, empty_env()) {
            Ok(actions) => r is Ok && r->Ok_0@ == actions,
            Err(e) => r == Err::<Vec<Action>, RuntimeError>(e),
        },
        r is Ok ==> actions_well_formed(r->Ok_0@, seq![]),
{
    let mut env = Env { states: Vec::new(), registers: Vec::new(), operators: Vec::new() };
    let mut actions: Vec<Action> = Vec::new();
    let mut pos: usize = 0;
    assert(env@ == empty_env());
    assert(actions@ + seq![] =~= actions@);
    while pos < tokens.len()
        invariant
            pos <= tokens.len(),
            env@.well_formed(),
            env@.states == states_before(actions@, seq![], actions@.len() as int),
            actions_well_formed(actions@, seq![]),
            spec_run(tokens@, 0, empty_env()) == match spec_run(tokens@, pos as int, env@) {
                Ok(rest) => Ok::<Seq<Action>, RuntimeError>(actions@ + rest),
                Err(e) => Err(e),
            },
        decreases tokens.len() - pos,
    {
        let ghost before = env@;
        let ghost done = actions@;
        let (next, action) = match statement(tokens, pos, &mut env) {
            Ok(x) => x,
            Err(e) => return Err(e),
        };
        if next >= tokens.len() {
            return Err(RuntimeError::new(None, ErrorKind::ExpectedNewLine));
        }
        match tokens[next].ty {
            TokenType::NewLine => {},
            _ => return Err(RuntimeError::new(Some(next), ErrorKind::ExpectedNewLine)),
        }
        proof {
            lemma_run_step(tokens@, pos as int, before);
        }
        match action {
            Some(a) => {
                let ghost ga = a;
                actions.push(a);
                proof {
                    lemma_push_action(done, ga, before.states);
                    assert(actions@ == done.push(ga));
                    lemma_prepend_action(done, ga, spec_run(tokens@, (next + 1) as int, env@));
                }
            },
            None => {},
        }
        pos = next + 1;
    }
    assert(actions@ + seq![] =~= actions@);
    Ok(actions)
}

/// One statement followed by its line end: the actions from `pos` on are its
/// action, then the actions from the next line on.
proof fn lemma_run_step(tokens: Seq<Token>, pos: int, env: EnvView)
    requires
        0 <= pos < tokens.len(),
        spec_statement(tokens, pos, env) is Ok,
        spec_statement(tokens, pos, env)->Ok_0.0 < tokens.len(),
        tokens[spec_statement(tokens, pos, env)->Ok_0.0].ty is NewLine,
    ensures
        ({
            let (next, after, action) = spec_statement(tokens, pos, env)->Ok_0;
            spec_run(tokens, pos, env) == match spec_run(tokens, next + 1, after) {
                Ok(rest) => Ok::<Seq<Action>, RuntimeError>(
                    match action {
                        Some(a) => seq![a] + rest,
                        None => rest,
                    },
                ),
                Err(e) => Err(e),
            }
        }),
{
}

proof fn lemma_prepend_action(done: Seq<Action>, a: Action, rest: Result<Seq<Action>, RuntimeError>)
    ensures
        match rest {
            Ok(r) => Ok::<Seq<Action>, RuntimeError>(done + (seq![a] + r)),
            Err(e) => Err(e),
        } == match rest {
            Ok(r) => Ok::<Seq<Action>, RuntimeError>(done.push(a) + r),
            Err(e) => Err(e),
        },
{
    if let Ok(r) = rest {
        assert(done + (seq![a] + r) =~= done.push(a) + r);
    }
}

proof fn lemma_push_action(done: Seq<Action>, a: Action, states: Seq<usize>)
    requires
        actions_well_formed(done, seq![]),
        states == states_before(done, seq![], done.len() as int),
        action_fits(a, states),
    ensures
        actions_well_formed(done.push(a), seq![]),
        states_before(done.push(a), seq![], (done.len() + 1) as int) == match a {
            Action::Initialize { qubits } => states.push(qubits),
            _ => states,
        },
{
    let actions = done.push(a);
    lemma_states_before_push(done, a, seq![], done.len() as int);
    assert forall|i: int| 0 <= i < actions.len() implies action_fits(
        #[trigger] actions[i],
        states_before(actions, seq![], i),
    ) by {
        if i < done.len() {
            lemma_states_before_push(done, a, seq![], i);
            assert(actions[i] == done[i]);
        }
    }
}

} // verus!
