use quantum_stuff::emulator::{plan, Action, ErrorKind};
use quantum_stuff::gates::{CNOTGate, GateExpr, HadamardGate, NOTGate};
use quantum_stuff::lexer::scan;
use quantum_stuff::oracle::oracle_permutation;
use quantum_stuff::qubits::{num_qubits_to_size, outcome_indices};

#[test]
fn sizes_of_registers() {
    assert_eq!(num_qubits_to_size(0), 1);
    assert_eq!(num_qubits_to_size(3), 8);
    assert_eq!(num_qubits_to_size(10), 1024);
}

#[test]
fn outcome_indices_of_middle_qubit() {
    // Qubit 1 of three reads 1: basis indices 0b010, 0b011, 0b110, 0b111.
    assert_eq!(outcome_indices(3, 1, 2, 1), vec![2, 3, 6, 7]);
    assert_eq!(outcome_indices(3, 1, 2, 0), vec![0, 1, 4, 5]);
    assert_eq!(outcome_indices(2, 0, 1, 1), vec![2, 3]);
    assert_eq!(outcome_indices(2, 0, 2, 3), vec![3]);
    assert_eq!(outcome_indices(2, 1, 1, 0), vec![0, 1, 2, 3]);
}

#[test]
fn oracle_of_constant_and_balanced_functions() {
    // f(x) = x on one input bit and one output bit: the CNOT permutation.
    assert_eq!(oracle_permutation(1, 1, &vec![0, 1]), vec![0, 1, 3, 2]);
    // f(x) = 1: the NOT on the output bit.
    assert_eq!(oracle_permutation(1, 1, &vec![1, 1]), vec![1, 0, 3, 2]);
    // Two output bits, f(0) = 2, f(1) = 3.
    assert_eq!(oracle_permutation(1, 2, &vec![2, 3]), vec![2, 3, 0, 1, 7, 6, 5, 4]);
}

#[test]
fn oracle_is_its_own_inverse() {
    let table = vec![3, 0, 2, 1, 1, 3, 0, 2];
    let perm = oracle_permutation(3, 2, &table);
    assert_eq!(perm.len(), 32);
    for i in 0..perm.len() {
        assert_eq!(perm[perm[i]], i);
    }
    let mut seen = vec![false; 32];
    for &p in &perm {
        assert!(!seen[p]);
        seen[p] = true;
    }
}

#[test]
fn standard_gates_as_expressions() {
    assert!(matches!(<GateExpr as NOTGate>::not(), GateExpr::Not));
    assert!(matches!(<GateExpr as CNOTGate>::cnot(), GateExpr::Cnot));
    assert!(matches!(<GateExpr as HadamardGate>::h(), GateExpr::Hadamard));
}

#[test]
fn plan_of_uniform_superposition_program() {
    let tokens = scan("\nINITIALIZE R 2\nU TENSOR H H\nAPPLY U R\nMEASURE R").unwrap();
    let actions = plan(&tokens).unwrap();
    assert_eq!(actions.len(), 3);
    assert!(matches!(actions[0], Action::Initialize { qubits: 2 }));
    match &actions[1] {
        Action::Apply { state: 0, start: 0, end: 2, gate: GateExpr::Tensor(a, b) } => {
            assert!(matches!(**a, GateExpr::Hadamard));
            assert!(matches!(**b, GateExpr::Hadamard));
        },
        other => panic!("unexpected {:?}", other),
    }
    assert!(matches!(actions[2], Action::Measure { state: 0, start: 0, end: 2 }));
}

#[test]
fn plan_of_select_and_measure() {
    let tokens = scan(
        "
        INITIALIZE R 2
        U TENSOR H I(2)
        APPLY U R
        SELECT S1 R 0 1
        MEASURE S1
        APPLY CNOT R
        MEASURE R",
    )
    .unwrap();
    let actions = plan(&tokens).unwrap();
    assert_eq!(actions.len(), 5);
    assert!(matches!(actions[2], Action::Measure { state: 0, start: 0, end: 1 }));
    assert!(matches!(actions[3], Action::Apply { state: 0, start: 0, end: 2, gate: GateExpr::Cnot }));
    assert!(matches!(actions[4], Action::Measure { state: 0, start: 0, end: 2 }));
}

#[test]
fn select_offset_out_of_bounds_is_reported_at_its_token() {
    let tokens = scan("INITIALIZE R 2\nSELECT S R 2 1\n").unwrap();
    let err = plan(&tokens).unwrap_err();
    assert_eq!(err.kind, ErrorKind::OffsetOutOfBounds);
    let at = &tokens[err.token.unwrap()];
    assert_eq!((at.line(), at.col()), (1, 11));
}

#[test]
fn select_count_and_names() {
    let tokens = scan("INITIALIZE R 3\nSELECT S R 1 2\nSELECT T S 1 1\nMEASURE T").unwrap();
    let actions = plan(&tokens).unwrap();
    assert!(matches!(actions[1], Action::Measure { state: 0, start: 2, end: 3 }));
    let tokens = scan("INITIALIZE R 3\nSELECT S R 1 3").unwrap();
    assert_eq!(plan(&tokens).unwrap_err().kind, ErrorKind::SelectCountOutOfBounds);
    let tokens = scan("INITIALIZE R 3\nSELECT S Q 1 1").unwrap();
    let err = plan(&tokens).unwrap_err();
    assert_eq!((err.kind, err.token), (ErrorKind::UnknownRegister, Some(6)));
}

#[test]
fn runtime_errors() {
    let cases: Vec<(&str, ErrorKind)> = vec![
        ("INITIALIZE R 9", ErrorKind::QubitCountOutOfRange),
        ("INITIALIZE R 0", ErrorKind::QubitCountOutOfRange),
        ("INITIALIZE 3 3", ErrorKind::ExpectedIdentifier),
        ("INITIALIZE R", ErrorKind::QubitCountOutOfRange),
        ("INITIALIZE R 2\nAPPLY CNOT R R", ErrorKind::ExpectedNewLine),
        ("INITIALIZE R 2\nAPPLY H R", ErrorKind::DimensionMismatch),
        ("INITIALIZE R 2\nAPPLY V R", ErrorKind::UnknownOperator),
        ("INITIALIZE R 2\nAPPLY 3 R", ErrorKind::ExpectedOperator),
        ("U CONCAT H CNOT", ErrorKind::ProductMismatch),
        ("U MEASURE H", ErrorKind::ExpectedMacro),
        ("U TENSOR H", ErrorKind::ExpectedOperator),
        ("MEASURE R", ErrorKind::UnknownRegister),
    ];
    for (program, kind) in cases {
        let tokens = scan(program).unwrap();
        assert_eq!(plan(&tokens).unwrap_err().kind, kind, "{}", program);
    }
    let tokens = scan("U TENSOR I(5000000000) H").unwrap();
    let err = plan(&tokens).unwrap_err();
    assert_eq!((err.kind, err.token), (ErrorKind::DimensionTooLarge, Some(2)));
    let tokens = scan("U TENSOR I(3000000000) I(2)").unwrap();
    let err = plan(&tokens).unwrap_err();
    assert_eq!((err.kind, err.token), (ErrorKind::DimensionTooLarge, Some(1)));
    let tokens = scan("U TENSOR I(65536) I(65536)").unwrap();
    let err = plan(&tokens).unwrap_err();
    assert_eq!((err.kind, err.token), (ErrorKind::DimensionTooLarge, Some(1)));
    let tokens = scan("U").unwrap();
    assert_eq!(plan(&tokens).unwrap_err().kind, ErrorKind::ExpectedMacro);
    let tokens = scan("INITIALIZE R").unwrap();
    assert_eq!(plan(&tokens).unwrap_err().token, Some(2));
}

#[test]
fn operator_definitions_and_rebinding() {
    let tokens = scan(
        "INITIALIZE R 3\nU TENSOR CNOT H\nV CONCAT U U\nW INVERSE V\nAPPLY W R\nR2 TENSOR H H\nINITIALIZE R 1\nAPPLY H R\nMEASURE MEASURE R",
    )
    .unwrap();
    let actions = plan(&tokens).unwrap();
    assert_eq!(actions.len(), 5);
    assert!(matches!(actions[1], Action::Apply { state: 0, start: 0, end: 3, gate: GateExpr::Inverse(_) }));
    assert!(matches!(actions[2], Action::Initialize { qubits: 1 }));
    assert!(matches!(actions[3], Action::Apply { state: 1, start: 0, end: 1, gate: GateExpr::Hadamard }));
    assert!(matches!(actions[4], Action::Peek { state: 1, start: 0, end: 1 }));
}
