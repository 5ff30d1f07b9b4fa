use fudi_rs::parser::get_message;
use fudi_rs::parser::is_whitespace;
use fudi_rs::parser::parse_atom;
use fudi_rs::parser::valid_atom_character;
use rand::RngExt;

#[test]
fn test_space() {
    assert!(is_whitespace(b' '));
}

#[test]
fn test_tab() {
    assert!(is_whitespace(b'\t'));
}

#[test]
fn test_newline() {
    assert!(is_whitespace(b'\n'));
}

#[test]
fn test_non_whitespace() {
    // generate random ASCII character
    let mut rng = rand::rng();
    let mut t: u8 = rng.random_range(0..128); // ASCII is 7 bit

    // make sure it is not 9, 10, or 32
    while (t == 9) || (t == 10) || (t == 32) {
        t = t + 1;
    }

    // check test function
    assert_eq!(is_whitespace(t), false);
}

#[test]
fn valid_atom_chars() {
    assert!(valid_atom_character(b'b'));
    assert!(!valid_atom_character(b';'));
    assert!(!valid_atom_character(b' '));
    assert!(!valid_atom_character(b'\t'));
    assert!(!valid_atom_character(b'\n'));
}

#[test]
fn parsing_atom() {
    // positive test
    let (atom, remainder) = parse_atom(b"bang;\n");
    let expected: [u8; 2] = [59, 10];
    assert_eq!(remainder, expected);
    let expected = [98, 97, 110, 103];
    assert_eq!(atom, expected);
}

#[test]
fn bang_capture() {
    // captured payload: 0x62 0x61 0x6e 0x67 0x3b 0x0a
    let (atom, remainder) = parse_atom(b"bang;\n");
    let expected: [u8; 2] = [0x3b, 0x0a];
    assert_eq!(remainder, expected);
    let expected = [0x62, 0x61, 0x6e, 0x67];
    assert_eq!(atom, expected);

    // process raw payload
    let binary_payload: [u8; 6] = [0x62, 0x61, 0x6e, 0x67, 0x3b, 0x0a];
    let res = get_message(&binary_payload);
    match res {
        Ok(message) => assert_eq!("bang;\n", String::from_utf8(message.to_text()).unwrap()),
        Err(_) => panic!("could not parse captured payload"),
    }
}

#[test]
fn message_from_bang_only_payload() {
    let res = get_message(b"bang;\n");
    match res {
        Ok(message) => assert_eq!("bang;\n", String::from_utf8(message.to_text()).unwrap()),
        Err(msg) => panic!("{:?}", msg),
    }
}

#[test]
fn message_from_only_alpha_payload() {
    let res = get_message(b"selector;\n");
    match res {
        Ok(message) => assert_eq!("selector;\n", String::from_utf8(message.to_text()).unwrap()),
        Err(msg) => panic!("{:?}", msg),
    }

    let res = get_message(b"only alpha msg;\n");
    match res {
        Ok(message) => match message {
            fudi_rs::PdMessage::Generic(_) => assert_eq!(
                "only alpha msg;\n",
                String::from_utf8(message.to_text()).unwrap()
            ),
            _ => panic!("unexpected message type"),
        },
        Err(msg) => panic!("{:?}", msg),
    }
}

#[test]
fn message_from_float_payload() {
    // float messages can be implied
    let res = get_message(b"39;\n");
    match res {
        Ok(message) => match message {
            fudi_rs::PdMessage::Float(_) => assert_eq!(
                "float 39;\n",
                String::from_utf8(message.to_text()).unwrap()
            ),
            _ => panic!("float message expected, different type detected"),
        },
        Err(msg) => panic!("{:?}", msg),
    }

    let res = get_message(b"-27.2727;\n");
    match res {
        Ok(message) => match message {
            fudi_rs::PdMessage::Float(_) => assert_eq!(
                "float -27.2727;\n",
                String::from_utf8(message.to_text()).unwrap()
            ),
            _ => panic!("float message expected, different type detected"),
        },
        Err(msg) => panic!("{:?}", msg),
    }

    let res = get_message(b"float 3;\n");
    match res {
        Ok(message) => match message {
            fudi_rs::PdMessage::Float(_) => assert_eq!(
                "float 3;\n",
                String::from_utf8(message.to_text()).unwrap()
            ),
            _ => panic!("unexpected message type"),
        },
        Err(msg) => panic!("{:?}", msg),
    }

    let res = get_message(b"float -5.7;\n");
    match res {
        Ok(message) => match message {
            fudi_rs::PdMessage::Float(_) => assert_eq!(
                "float -5.7;\n",
                String::from_utf8(message.to_text()).unwrap()
            ),
            _ => panic!("unexpected message type"),
        },
        Err(msg) => panic!("{:?}", msg),
    }
}

#[test]
fn message_from_symbol_payload() {
    let res = get_message(b"symbol foo;\n");
    match res {
        Ok(message) => match message {
            fudi_rs::PdMessage::Symbol(_) => assert_eq!(
                "symbol foo;\n",
                String::from_utf8(message.to_text()).unwrap()
            ),
            _ => panic!("symbol message expected, different type detected"),
        },
        Err(msg) => panic!("{:?}", msg),
    }

    let res = get_message(b"la la;\n");
    match res {
        Ok(message) => match message {
            fudi_rs::PdMessage::Symbol(_) => {
                panic!("non-symbol message expected, symbol message detected")
            }
            _ => (),
        },
        Err(msg) => panic!("{:?}", msg),
    }
}

#[test]
fn message_from_list_payload() {
    // no data -> conversion to bang-message
    let res = get_message(b"list;\n");
    match res {
        Ok(message) => match message {
            fudi_rs::PdMessage::Bang => assert_eq!(
                "bang;\n",
                String::from_utf8(message.to_text()).unwrap()
            ),
            _ => panic!("bang message expected, different type detected"),
        },
        Err(msg) => panic!("{:?}", msg),
    }

    // --- one-element lists ---
    // one word -> conversion to symbol-message
    let res = get_message(b"list foo;\n");
    match res {
        Ok(message) => match message {
            fudi_rs::PdMessage::Symbol(_) => assert_eq!(
                "symbol foo;\n",
                String::from_utf8(message.to_text()).unwrap()
            ),
            _ => panic!("symbol message expected, different type detected"),
        },
        Err(msg) => panic!("{:?}", msg),
    }

    // one number -> conversion to float message
    let res = get_message(b"list 74;\n");
    match res {
        Ok(message) => match message {
            fudi_rs::PdMessage::Float(_) => assert_eq!(
                "float 74;\n",
                String::from_utf8(message.to_text()).unwrap()
            ),
            _ => panic!("float message expected, different type detected"),
        },
        Err(msg) => panic!("{:?}", msg),
    }
}
