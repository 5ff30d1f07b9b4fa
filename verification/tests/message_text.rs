use fudi_rs::GenericMessage;
use fudi_rs::PdMessage;

#[test]
fn generate_float_message() {
    let msg = PdMessage::Float(format!("{}", 2.974f32).into_bytes());
    assert_eq!(
        String::from("float 2.974;\n"),
        String::from_utf8(msg.to_text()).unwrap()
    );
}

#[test]
fn generate_symbol_message() {
    let msg = PdMessage::Symbol(String::from("foobar").into_bytes());
    assert_eq!(
        String::from("symbol foobar;\n"),
        String::from_utf8(msg.to_text()).unwrap()
    );
}

#[test]
fn generate_bang_message() {
    let msg = PdMessage::Bang;
    assert_eq!(
        String::from("bang;\n"),
        String::from_utf8(msg.to_text()).unwrap()
    );
}

#[test]
fn generate_generic_message() {
    let msg = PdMessage::Generic(GenericMessage {
        selector: String::from("selector").into_bytes(),
        atoms: vec![
            "one".to_string().into_bytes(),
            "two".to_string().into_bytes(),
            "17.9".to_string().into_bytes(),
        ],
    });
    assert_eq!(
        String::from("selector one two 17.9;\n"),
        String::from_utf8(msg.to_text()).unwrap()
    );
}
