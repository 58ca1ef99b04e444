use oscq_rs::{oscvalue, OscQueryError, OscScalar, OscValue};

#[test]
fn every_tag_round_trips() {
    let tags = "ifsbtldcrmTNI";
    let values = oscvalue::decode_type_string(tags).unwrap();
    assert_eq!(values.len(), tags.chars().count());
    assert_eq!(oscvalue::type_string(&values), tags);
}

#[test]
fn placeholders_have_the_matching_kind() {
    let values = oscvalue::decode_type_string("ifsbtldcrmTNI").unwrap();
    assert_eq!(values[0], OscValue::Int(0));
    assert_eq!(values[1], OscValue::Float(String::from("0.0")));
    assert_eq!(values[2], OscValue::Str(String::new()));
    assert_eq!(values[3], OscValue::Blob(Vec::new()));
    assert_eq!(values[4], OscValue::Time(2208988800, 0));
    assert_eq!(values[5], OscValue::Long(0));
    assert_eq!(values[6], OscValue::Double(String::from("0.0")));
    assert_eq!(values[7], OscValue::Char(' '));
    assert_eq!(values[8], OscValue::Color(0, 0, 0, 0));
    assert_eq!(values[9], OscValue::Midi(0, 0, 0, 0));
    assert_eq!(values[10], OscValue::Bool(true));
    assert_eq!(values[11], OscValue::Nil);
    assert_eq!(values[12], OscValue::Inf);
}

#[test]
fn type_string_of_values() {
    let values = vec![
        OscValue::Float(String::from("1.5")),
        OscValue::Float(String::from("2.5")),
        OscValue::Int(7),
    ];
    assert_eq!(oscvalue::type_string(&values), "ffi");
}

#[test]
fn empty_type_string_is_an_error() {
    assert_eq!(
        oscvalue::decode_type_string(""),
        Err(OscQueryError::InvalidEmptyTypeString)
    );
}

#[test]
fn unknown_tag_is_named() {
    assert_eq!(
        oscvalue::decode_type_string("fxq"),
        Err(OscQueryError::UnknownTag('x'))
    );
}

#[test]
fn value_decode_pairs_scalars_with_kinds() {
    let kinds = oscvalue::decode_type_string("ifld").unwrap();
    let scalars = vec![
        OscScalar::Number(String::from("-42")),
        OscScalar::Number(String::from("1.5")),
        OscScalar::Number(String::from("9223372036854775807")),
        OscScalar::Number(String::from("2.5")),
    ];
    let values = oscvalue::decode_values(&kinds, scalars).unwrap();
    assert_eq!(values[0], OscValue::Int(-42));
    assert_eq!(values[1], OscValue::Float(String::from("1.5")));
    assert_eq!(values[2], OscValue::Long(9223372036854775807));
    assert_eq!(values[3], OscValue::Double(String::from("2.5")));
}

#[test]
fn value_decode_of_text_bytes_char_bool() {
    let kinds = oscvalue::decode_type_string("sbcT").unwrap();
    let scalars = vec![
        OscScalar::Text(String::from("hello")),
        OscScalar::Bytes(vec![1, 2, 3]),
        OscScalar::Text(String::from("x")),
        OscScalar::Truth(false),
    ];
    let values = oscvalue::decode_values(&kinds, scalars).unwrap();
    assert_eq!(values[0], OscValue::Str(String::from("hello")));
    assert_eq!(values[1], OscValue::Blob(vec![1, 2, 3]));
    assert_eq!(values[2], OscValue::Char('x'));
    assert_eq!(values[3], OscValue::Bool(false));
}

#[test]
fn value_decode_tells_kinds_apart_by_position() {
    // the same number text becomes an integer or a float text, by the kind
    let kinds = oscvalue::decode_type_string("i").unwrap();
    let got = oscvalue::decode_values(&kinds, vec![OscScalar::Number(String::from("7"))]);
    assert_eq!(got.unwrap()[0], OscValue::Int(7));
    let kinds = oscvalue::decode_type_string("f").unwrap();
    let got = oscvalue::decode_values(&kinds, vec![OscScalar::Number(String::from("7"))]);
    assert_eq!(got.unwrap()[0], OscValue::Float(String::from("7")));
}

#[test]
fn value_decode_rejects_misfits() {
    let kinds = oscvalue::decode_type_string("i").unwrap();
    // not a number at an integer kind
    assert!(oscvalue::decode_values(&kinds, vec![OscScalar::Text(String::from("5"))]).is_none());
    // out of the 32-bit range
    assert!(oscvalue::decode_values(
        &kinds,
        vec![OscScalar::Number(String::from("2147483648"))]
    )
    .is_none());
    // in range, at the edges
    assert_eq!(
        oscvalue::decode_values(
            &kinds,
            vec![OscScalar::Number(String::from("-2147483648"))]
        )
        .unwrap()[0],
        OscValue::Int(-2147483648)
    );
    // counts must agree
    assert!(oscvalue::decode_values(&kinds, vec![]).is_none());
    // a non-canonical number spells nothing
    assert!(oscvalue::decode_values(&kinds, vec![OscScalar::Number(String::from("007"))]).is_none());
    assert!(oscvalue::decode_values(&kinds, vec![OscScalar::Number(String::from("-0"))]).is_none());
    // a kind without a scalar form fits nothing
    let kinds = oscvalue::decode_type_string("N").unwrap();
    assert!(oscvalue::decode_values(&kinds, vec![OscScalar::Truth(true)]).is_none());
}
