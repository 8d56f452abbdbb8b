use veelog::db::util::pretty_gridsquare;
use veelog::util::{prettyvalidate_gridsquare, Error};

#[test]
fn util_test_prettify_grid() {
    let grid = "aA00aA".to_string();
    assert_eq!("AA00aa".to_string(), pretty_gridsquare(&grid).unwrap());
    let grid = "aa00AA".to_string();
    assert_eq!("AA00aa".to_string(), pretty_gridsquare(&grid).unwrap());
    let grid = "aa00".to_string();
    assert_eq!("AA00".to_string(), pretty_gridsquare(&grid).unwrap());
}

#[test]
fn lib_test_prettify_grid() {
    let grid = "aA00aA".to_string();
    assert_eq!(
        "AA00aa".to_string(),
        prettyvalidate_gridsquare(&grid).unwrap()
    );
    let grid = "aa00AA".to_string();
    assert_eq!(
        "AA00aa".to_string(),
        prettyvalidate_gridsquare(&grid).unwrap()
    );
    let grid = "aa00".to_string();
    assert_eq!("AA00".to_string(), prettyvalidate_gridsquare(&grid).unwrap());
}

#[test]
fn grid_rejects_bad_lengths_and_non_ascii() {
    for bad in ["", "AAA", "AA000", "AA00AA0", "ÄA00", "AA0ö", "ÅÄ00aa"] {
        let got = prettyvalidate_gridsquare(&bad.to_string());
        match got {
            Err(Error::FieldParseError {
                field_name,
                field_value,
                ..
            }) => {
                assert_eq!("GRIDSQUARE", field_name);
                assert_eq!(bad, field_value);
            }
            _ => panic!("expected a field rejection"),
        }
    }
}

#[test]
fn grid_normalization_is_idempotent_on_normalized_input() {
    for g in ["aa00aa", "AA00AA", "Jn58td", "jn58", "AB12cd"] {
        let once = prettyvalidate_gridsquare(&g.to_string()).unwrap();
        let twice = prettyvalidate_gridsquare(&once).unwrap();
        assert_eq!(once, twice);
    }
}

#[test]
fn grid_six_char_case_convention() {
    assert_eq!(
        "AA00aa".to_string(),
        prettyvalidate_gridsquare(&"aa00AA".to_string()).unwrap()
    );
    assert_eq!(
        "JN58td".to_string(),
        prettyvalidate_gridsquare(&"jn58TD".to_string()).unwrap()
    );
}
