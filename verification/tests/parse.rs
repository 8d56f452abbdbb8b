use veelog::adif::data::{ADIFFile, ADIFHeader, ADIFRecord, ADIFType};
use veelog::adif::parse::parse_tokens;
use veelog::util::Error;

#[test]
pub fn parse_adif() {
    let data = "ADIF Export\n
            <adif_ver:5>3.1.1\n
            <eoh>\n
            <call:6>N0CALL <gridsquare:4>AA00 <eor>";
    let file = veelog::adif::parse::parse_adif(data).unwrap();
    assert_eq!(
        file,
        ADIFFile {
            header: ADIFHeader(vec![(
                "ADIF_VER".to_string(),
                ADIFType::Str("3.1.1".to_string(),),
            ),]),
            body: vec![ADIFRecord(vec![
                ("CALL".to_string(), ADIFType::Str("N0CALL".to_string(),),),
                ("GRIDSQUARE".to_string(), ADIFType::Str("AA00".to_string(),),),
            ]),],
        }
    );
    println!("{}", file.serialize().unwrap());
}

#[test]
fn tokens_keep_order_and_upper_case_keys() {
    let toks = parse_tokens("<call:6>N0CALL<Name:3>Ann\nnoise<freq:5:n>7.074").unwrap();
    assert_eq!(3, toks.len());
    assert_eq!("CALL", toks[0].key);
    assert_eq!(6, toks[0].len);
    assert_eq!(None, toks[0].ty);
    assert_eq!("N0CALL", toks[0].val);
    assert_eq!("NAME", toks[1].key);
    assert_eq!("Ann", toks[1].val);
    assert_eq!("FREQ", toks[2].key);
    assert_eq!(Some('N'), toks[2].ty);
    assert_eq!("7.074", toks[2].val);
}

#[test]
fn tokens_trim_trailing_whitespace() {
    let toks = parse_tokens("<call:6>N0CALL   \t").unwrap();
    assert_eq!(1, toks.len());
    assert_eq!("N0CALL", toks[0].val);
}

#[test]
fn token_without_length_digits_is_a_hard_failure() {
    match parse_tokens("<call:>N0CALL") {
        Err(Error::ParseError { .. }) => {}
        _ => panic!("expected a parse failure"),
    }
}

#[test]
fn token_with_oversized_length_is_a_hard_failure() {
    match parse_tokens("<call:99999999999999999999999999>N0CALL") {
        Err(Error::ParseError { .. }) => {}
        _ => panic!("expected a parse failure"),
    }
}

#[test]
fn stray_angle_brackets_are_passed_over() {
    let toks = parse_tokens("a < b <notatag <call:6>N0CALL").unwrap();
    assert_eq!(1, toks.len());
    assert_eq!("CALL", toks[0].key);
}

#[test]
fn file_without_header_terminator_is_rejected() {
    match veelog::adif::parse::parse_adif("<call:6>N0CALL<eor>") {
        Err(Error::ParseError { .. }) => {}
        _ => panic!("expected a parse failure"),
    }
}

#[test]
fn file_with_two_header_terminators_is_rejected() {
    match veelog::adif::parse::parse_adif("<eoh>\n<call:6>N0CALL<eor><EOH>") {
        Err(Error::ParseError { .. }) => {}
        _ => panic!("expected a parse failure"),
    }
}

#[test]
fn serialize_renders_name_length_and_value() {
    let v = ADIFType::Str("N0CALL".to_string());
    assert_eq!("<CALL:6>N0CALL", v.serialize("call").unwrap());
    let spaced = ADIFType::Str("x".to_string());
    assert_eq!("<MY_FIELD:1>x", spaced.serialize("my field").unwrap());
    let wide = ADIFType::Str("café".to_string());
    assert_eq!("<QTH:5>café", wide.serialize("qth").unwrap());
}

#[test]
fn non_text_values_fail_loudly_naming_the_value() {
    match ADIFType::Bool(true).serialize("call") {
        Err(Error::ADIFSerializeError { offender, .. }) => assert_eq!("true", offender),
        _ => panic!("expected a serialization failure"),
    }
    match ADIFType::Bool(false).extract_value() {
        Err(Error::ADIFSerializeError { offender, .. }) => assert_eq!("false", offender),
        _ => panic!("expected a serialization failure"),
    }
    match ADIFType::Num("7.074".to_string()).extract_value() {
        Err(Error::ADIFSerializeError { offender, .. }) => assert_eq!("7.074", offender),
        _ => panic!("expected a serialization failure"),
    }
}

#[test]
fn parse_of_serialized_file_reproduces_pairs() {
    let file = ADIFFile {
        header: ADIFHeader(vec![
            ("ADIF_VER".to_string(), ADIFType::Str("3.1.1".to_string())),
            ("PROGRAMID".to_string(), ADIFType::Str("veelog".to_string())),
        ]),
        body: vec![
            ADIFRecord(vec![
                ("CALL".to_string(), ADIFType::Str("N0CALL".to_string())),
                ("GRIDSQUARE".to_string(), ADIFType::Str("AA00".to_string())),
            ]),
            ADIFRecord(vec![(
                "COMMENT".to_string(),
                ADIFType::Str("73 and good DX".to_string()),
            )]),
        ],
    };
    let text = file.serialize().unwrap();
    let back = veelog::adif::parse::parse_adif(&text).unwrap();
    assert_eq!(file.header, back.header);
    assert_eq!(file.body, back.body);
}
