use quantum_stuff::lexer::{scan, PrimitiveGate, ScanError, TokenType};

#[test]
fn debug_test() {
    let program = "
INITIALIZE R 2
U TENSOR H H
APPLY U R
MEASURE R RES";

    let tokens = scan(program).unwrap();
    assert_eq!(tokens.len(), 17);
    assert!(matches!(tokens[0].ty, TokenType::Initialize));
    assert_eq!((tokens[0].line(), tokens[0].col()), (1, 0));
    assert!(matches!(&tokens[1].ty, TokenType::Identifier(name) if name == "R"));
    assert_eq!(tokens[1].col(), 11);
    assert!(matches!(tokens[2].ty, TokenType::Number(2)));
    assert!(matches!(tokens[3].ty, TokenType::NewLine));
    assert_eq!((tokens[3].line(), tokens[3].col()), (1, 14));
    assert!(matches!(tokens[5].ty, TokenType::Tensor));
    assert!(matches!(tokens[6].ty, TokenType::Gate(PrimitiveGate::H)));
    assert!(matches!(&tokens[15].ty, TokenType::Identifier(name) if name == "RES"));
    assert!(matches!(tokens[16].ty, TokenType::NewLine));
    assert_eq!(tokens[16].line(), 4);
}

#[test]
fn debug_test_2() {
    let program = "INITIALIZE R 2
U TENSOR H I(2)
APPLY U R
SELECT S1 R 0 1
MEASURE S1 RES
APPLY CNOT R
MEASURE R RES";

    let tokens = scan(program).unwrap();
    assert_eq!(tokens.len(), 31);
    assert!(matches!(tokens[7].ty, TokenType::Gate(PrimitiveGate::I(2))));
    assert!(matches!(tokens[13].ty, TokenType::Select));
    assert_eq!(tokens[13].line(), 3);
    assert!(matches!(tokens[24].ty, TokenType::Gate(PrimitiveGate::CNOT)));
}

#[test]
fn bit_literals_and_angles() {
    let tokens = scan("[0110] R(1.5) R(-2e3) R(.5) R(inf) [] 007").unwrap();
    match &tokens[0].ty {
        TokenType::ByteArray(bits) => assert_eq!(bits, &vec![false, true, true, false]),
        other => panic!("unexpected {:?}", other),
    }
    assert!(matches!(&tokens[1].ty, TokenType::Gate(PrimitiveGate::R(a)) if a == "1.5"));
    assert!(matches!(&tokens[2].ty, TokenType::Gate(PrimitiveGate::R(a)) if a == "-2e3"));
    assert!(matches!(&tokens[3].ty, TokenType::Gate(PrimitiveGate::R(a)) if a == ".5"));
    assert!(matches!(&tokens[4].ty, TokenType::Gate(PrimitiveGate::R(a)) if a == "inf"));
    assert!(matches!(&tokens[5].ty, TokenType::ByteArray(b) if b.is_empty()));
    assert!(matches!(tokens[6].ty, TokenType::Number(7)));
    assert_eq!(tokens[6].col(), 38);
}

#[test]
fn scan_errors() {
    assert_eq!(scan("[0120]").unwrap_err(), ScanError::MalformedBits);
    assert_eq!(scan("X R(1.2.3)").unwrap_err(), ScanError::MalformedAngle);
    assert_eq!(scan("R(e5)").unwrap_err(), ScanError::MalformedAngle);
    assert_eq!(scan("I(two)").unwrap_err(), ScanError::MalformedDimension);
    assert_eq!(scan("99999999999999999999999").unwrap_err(), ScanError::NumberTooLarge);
    assert_eq!(scan("ok\n[01x] R(zz)").unwrap_err(), ScanError::MalformedBits);
}

#[test]
fn blank_lines_and_columns() {
    let tokens = scan("\n\n   \nA   B\tc\r\n").unwrap();
    assert_eq!(tokens.len(), 4);
    assert_eq!((tokens[0].line(), tokens[0].col()), (3, 0));
    assert_eq!(tokens[1].col(), 2);
    assert_eq!(tokens[2].col(), 4);
    assert_eq!((tokens[3].line(), tokens[3].col()), (3, 5));
    let tokens = scan("é x").unwrap();
    assert_eq!(tokens[1].col(), 3);
    assert!(matches!(&tokens[0].ty, TokenType::Identifier(name) if name == "é"));
}

#[test]
fn unsigned_dimension_accepts_plus_sign() {
    let tokens = scan("I(+4) I(0)").unwrap();
    assert!(matches!(tokens[0].ty, TokenType::Gate(PrimitiveGate::I(4))));
    assert!(matches!(tokens[1].ty, TokenType::Gate(PrimitiveGate::I(0))));
    assert_eq!(scan("I(+)").unwrap_err(), ScanError::MalformedDimension);
    assert_eq!(scan("I(-1)").unwrap_err(), ScanError::MalformedDimension);
}
