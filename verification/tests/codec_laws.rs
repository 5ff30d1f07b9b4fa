use fudi_rs::parser::classify;
use fudi_rs::parser::get_message;
use fudi_rs::parser::is_numeric_atom;
use fudi_rs::parser::tokenize;
use fudi_rs::DecodeError;
use fudi_rs::GenericMessage;
use fudi_rs::PdMessage;

fn decode_text(msg: &PdMessage) -> Result<PdMessage, DecodeError> {
    get_message(&msg.to_text())
}

#[test]
fn round_trip_bang() {
    match decode_text(&PdMessage::Bang) {
        Ok(PdMessage::Bang) => (),
        other => panic!("bang did not round-trip: {:?}", other.map(|m| m.to_text())),
    }
}

#[test]
fn round_trip_float() {
    match decode_text(&PdMessage::Float(b"-27.2727".to_vec())) {
        Ok(PdMessage::Float(t)) => assert_eq!(t, b"-27.2727".to_vec()),
        other => panic!("float did not round-trip: {:?}", other.map(|m| m.to_text())),
    }
}

#[test]
fn round_trip_symbol() {
    match decode_text(&PdMessage::Symbol(b"foobar".to_vec())) {
        Ok(PdMessage::Symbol(s)) => assert_eq!(s, b"foobar".to_vec()),
        other => panic!("symbol did not round-trip: {:?}", other.map(|m| m.to_text())),
    }
}

#[test]
fn round_trip_generic() {
    let msg = PdMessage::Generic(GenericMessage {
        selector: b"only".to_vec(),
        atoms: vec![b"alpha".to_vec(), b"msg".to_vec()],
    });
    match decode_text(&msg) {
        Ok(PdMessage::Generic(g)) => {
            assert_eq!(g.selector, b"only".to_vec());
            assert_eq!(g.atoms, vec![b"alpha".to_vec(), b"msg".to_vec()]);
        }
        other => panic!("generic did not round-trip: {:?}", other.map(|m| m.to_text())),
    }
}

#[test]
fn classification_is_deterministic() {
    let first = get_message(b"float 3;\n");
    let second = get_message(b"float 3;\n");
    match (first, second) {
        (Ok(a), Ok(b)) => assert_eq!(a.to_text(), b.to_text()),
        other => panic!("decode failed: {:?}", other.0.is_err()),
    }
}

#[test]
fn negative_integer_is_float_message() {
    match get_message(b"-3;\n") {
        Ok(PdMessage::Float(t)) => assert_eq!(t, b"-3".to_vec()),
        other => panic!("float message expected: {:?}", other.map(|m| m.to_text())),
    }
}

#[test]
fn float_selector_without_payload_is_generic() {
    // a lone reserved word carries no payload to type, so it falls back to
    // a selector-only generic message
    match get_message(b"float;\n") {
        Ok(PdMessage::Generic(g)) => {
            assert_eq!(g.selector, b"float".to_vec());
            assert_eq!(g.atoms, Vec::<Vec<u8>>::new());
        }
        other => panic!("generic message expected: {:?}", other.map(|m| m.to_text())),
    }
}

#[test]
fn symbol_selector_without_payload_is_generic() {
    match get_message(b"symbol;\n") {
        Ok(PdMessage::Generic(g)) => assert_eq!(g.selector, b"symbol".to_vec()),
        other => panic!("generic message expected: {:?}", other.map(|m| m.to_text())),
    }
}

#[test]
fn missing_terminator_fails() {
    assert_eq!(get_message(b"bang\n").unwrap_err(), DecodeError::MissingTerminator);
    assert_eq!(get_message(b"").unwrap_err(), DecodeError::MissingTerminator);
}

#[test]
fn empty_message_fails() {
    assert_eq!(get_message(b";\n").unwrap_err(), DecodeError::EmptyMessage);
    assert_eq!(get_message(b" \t\n;\n").unwrap_err(), DecodeError::EmptyMessage);
}

#[test]
fn float_selector_with_bad_payload_fails() {
    assert_eq!(
        get_message(b"float abc;\n").unwrap_err(),
        DecodeError::UnparseableNumber
    );
    assert_eq!(
        get_message(b"float 3.;\n").unwrap_err(),
        DecodeError::UnparseableNumber
    );
}

#[test]
fn tokenize_collapses_whitespace_and_keeps_trailing_bytes() {
    let (atoms, trailing) = tokenize(b"  a \t\n b ;rest").unwrap();
    assert_eq!(atoms, vec![b"a".to_vec(), b"b".to_vec()]);
    assert_eq!(trailing, b"rest".to_vec());
}

#[test]
fn tokenize_stops_at_first_semicolon() {
    let (atoms, trailing) = tokenize(b"ab;cd;\n").unwrap();
    assert_eq!(atoms, vec![b"ab".to_vec()]);
    assert_eq!(trailing, b"cd;\n".to_vec());
}

#[test]
fn numeric_atom_grammar_edges() {
    assert!(is_numeric_atom(&b"0".to_vec()));
    assert!(is_numeric_atom(&b"007".to_vec()));
    assert!(is_numeric_atom(&b"-2.5".to_vec()));
    assert!(!is_numeric_atom(&b"".to_vec()));
    assert!(!is_numeric_atom(&b"-".to_vec()));
    assert!(!is_numeric_atom(&b"3.".to_vec()));
    assert!(!is_numeric_atom(&b".5".to_vec()));
    assert!(!is_numeric_atom(&b"1.2.3".to_vec()));
    assert!(!is_numeric_atom(&b"2-2".to_vec()));
}

#[test]
fn dotless_and_dotted_numerals_decode_verbatim() {
    match get_message(b"007;\n") {
        Ok(PdMessage::Float(t)) => assert_eq!(t, b"007".to_vec()),
        other => panic!("float message expected: {:?}", other.map(|m| m.to_text())),
    }
    match get_message(b"3.;\n") {
        // not a numeral under the grammar: falls back to a selector
        Ok(PdMessage::Generic(g)) => assert_eq!(g.selector, b"3.".to_vec()),
        other => panic!("generic message expected: {:?}", other.map(|m| m.to_text())),
    }
}

#[test]
fn list_with_several_atoms_is_generic() {
    match get_message(b"list 1 2;\n") {
        Ok(PdMessage::Generic(g)) => {
            assert_eq!(g.selector, b"list".to_vec());
            assert_eq!(g.atoms, vec![b"1".to_vec(), b"2".to_vec()]);
        }
        other => panic!("generic message expected: {:?}", other.map(|m| m.to_text())),
    }
}

#[test]
fn bang_with_payload_is_generic() {
    match get_message(b"bang x;\n") {
        Ok(PdMessage::Generic(g)) => {
            assert_eq!(g.selector, b"bang".to_vec());
            assert_eq!(g.atoms, vec![b"x".to_vec()]);
        }
        other => panic!("generic message expected: {:?}", other.map(|m| m.to_text())),
    }
}

#[test]
fn symbol_selector_takes_payload_verbatim() {
    match get_message(b"symbol 3;\n") {
        Ok(PdMessage::Symbol(s)) => assert_eq!(s, b"3".to_vec()),
        other => panic!("symbol message expected: {:?}", other.map(|m| m.to_text())),
    }
}

#[test]
fn classify_empty_run_fails() {
    assert_eq!(classify(Vec::new()).unwrap_err(), DecodeError::EmptyMessage);
}
